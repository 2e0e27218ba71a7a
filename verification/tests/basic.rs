use granny_pass::key::{distance, position, to_key};
use granny_pass::word::{End, Error};
use granny_pass::word::{cost, Bound, Metadata, Type};

#[test]
fn distance_f() {
    assert_eq!(distance('F', 'H'), 2);
    assert_eq!(distance('H', 'F'), 2);
    assert_eq!(distance('Z', 'Q'), 2);
    assert_eq!(distance('A', 'L'), 8);
    assert_eq!(distance('A', 'L'), 8);
    assert_eq!(distance('Z', 'R'), 5);
    assert_eq!(distance('Z', '0'), 12);
}

#[test]
fn position_f() {
    assert_eq!(position('Z'), (0, 0));
    assert_eq!(position('M'), (0, 6));
    assert_eq!(position('7'), (3, 6));
    assert_eq!(position('A'), (1, 0));
    assert_eq!(position('K'), (1, 7));
    assert_eq!(position('L'), (1, 8));
}

#[test]
fn to_key_folds_case() {
    assert_eq!(to_key('a'), 'A');
    assert_eq!(to_key('Z'), 'Z');
    assert_eq!(to_key('7'), '7');
}

#[test]
fn cost_of_granny() {
    // g -2> r -4> a -6> n -0> n -2> y
    assert_eq!(cost("granny"), 14);
    assert_eq!(cost("a"), 0);
    assert_eq!(cost("zz"), 0);
}

#[test]
fn metadata_from_word() {
    let m = Metadata::from_word("granny").unwrap();
    assert_eq!(m.t.first_key, Bound::At('G'));
    assert_eq!(m.t.last_key, Bound::At('Y'));
    assert_eq!(m.t.length, 6);
    assert_eq!(m.cost, 14);
}

#[test]
fn empty_word_is_refused() {
    assert_eq!(Type::from_word(""), Err(Error::EmptyInput));
    assert_eq!(Metadata::from_word(""), Err(Error::EmptyInput));
    assert!(granny_pass::password::Password::from_word("").is_err());
}

#[test]
fn metadata_binding() {
    let mut m = Metadata::from_word("granny").unwrap();
    assert!(!m.is_binded(&End::Left));
    assert!(!m.is_binded(&End::Right));
    m.bind(&End::Left);
    assert!(m.is_binded(&End::Left));
    assert!(!m.is_binded(&End::Right));
    assert_eq!(m.t.first_key, Bound::Any);
    assert_eq!(m.t.last_key, Bound::At('Y'));
    assert_eq!(m.cost, 14);
    m.bind(&End::Right);
    assert!(m.is_binded(&End::Right));
    assert_eq!(m.t.last_key, Bound::Any);
}
