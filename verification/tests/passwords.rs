use granny_pass::password::{Best, Goal, Password, Passwords};
use granny_pass::word::{Bound, End, Error, Metadata, Type};

fn word(w: &str) -> Password {
    Password::from_word(w).unwrap()
}

fn table(words: &[&str]) -> Best<Passwords> {
    let mut t: Best<Passwords> = Best { p: Vec::new() };
    for w in words {
        t.push(&word(w));
    }
    t
}

#[test]
fn pass() {
    let g = Password::from_word("granny").unwrap();
    let p = Password::from_word("panties").unwrap();

    assert_eq!(
        Password::from_word("granny").unwrap(),
        Password {
            metadata: Metadata {
                t: Type { first_key: Bound::At('G'), last_key: Bound::At('Y'), length: 6 },
                cost: 14,
            },
            words: vec!["granny".to_string()],
        }
    );

    assert_eq!(
        Password::from_word("panties").unwrap(),
        Password {
            metadata: Metadata {
                t: Type { first_key: Bound::At('P'), last_key: Bound::At('S'), length: 7 },
                cost: 29,
            },
            words: vec!["panties".to_string()],
        }
    );

    assert_eq!(
        g.concat(&p),
        Password {
            metadata: Metadata {
                t: Type { first_key: Bound::At('G'), last_key: Bound::At('S'), length: 13 },
                cost: 47,
            },
            words: vec!["granny".to_string(), "panties".to_string()],
        }
    );

    let zack = Password {
        metadata: Metadata {
            t: Type { first_key: Bound::At('Z'), last_key: Bound::At('K'), length: 4 },
            cost: 10,
        },
        words: vec!["zack".to_string()],
    };
    let miri = Password {
        metadata: Metadata {
            t: Type { first_key: Bound::At('M'), last_key: Bound::At('I'), length: 4 },
            cost: 11,
        },
        words: vec!["miri".to_string()],
    };

    assert_eq!(
        zack.concat(&miri),
        Password {
            metadata: Metadata {
                t: Type { first_key: Bound::At('M'), last_key: Bound::At('I'), length: 8 },
                cost: 22,
            },
            words: vec!["zack".to_string(), "miri".to_string()],
        }
    );
}

#[test]
fn composition_scenario_granny_panties() {
    let c = word("granny").concat(&word("panties"));
    assert_eq!(c.metadata.t.length, 13);
    assert_eq!(c.metadata.cost, 47);
    assert_eq!(c.metadata.t.first_key, Bound::At('G'));
    assert_eq!(c.metadata.t.last_key, Bound::At('S'));
}

#[test]
fn composition_scenario_zack_miri() {
    // The junction of "zack" and "miri" adds the distance K -> M on top
    // of the two word costs: 10 + 11 + 2, one row and one column apart.
    let c = word("zack").concat(&word("miri"));
    assert_eq!(c.metadata.t.length, 8);
    assert_eq!(c.metadata.cost, 23);
    assert_eq!(c.words, vec!["zack".to_string(), "miri".to_string()]);
}

#[test]
fn composition_cost_monotone() {
    let a = word("granny");
    let b = word("panties");
    let c = a.concat(&b);
    assert!(c.metadata.cost >= a.metadata.cost);
    assert!(c.metadata.cost >= b.metadata.cost);
}

#[test]
fn composition_cost_associative() {
    let a = word("granny");
    let b = word("panties");
    let c = word("zack");
    let left = a.concat(&b).concat(&c);
    let right = a.concat(&b.concat(&c));
    assert_eq!(left.metadata, right.metadata);
    assert_eq!(left.words, right.words);
}

#[test]
fn push_idempotent() {
    let mut t = table(&["granny", "zack"]);
    let before: Vec<(Metadata, Vec<String>)> =
        t.p.iter().map(|b| (b.p.metadata, b.p.words.clone())).collect();
    t.push(&word("granny"));
    let after: Vec<(Metadata, Vec<String>)> =
        t.p.iter().map(|b| (b.p.metadata, b.p.words.clone())).collect();
    assert_eq!(before, after);
}

#[test]
fn push_keeps_the_cheaper() {
    // "toot" and "tyyt" share a signature: first key T, last key T,
    // length 4; their costs differ.
    let c1 = word("toot");
    let c2 = word("tyyt");
    assert_eq!(c1.metadata.t, c2.metadata.t);
    assert!(c1.metadata.cost != c2.metadata.cost);
    let cheaper = if c1.metadata.cost <= c2.metadata.cost { c1.clone() } else { c2.clone() };
    let mut t: Best<Passwords> = Best { p: Vec::new() };
    t.push(&c1);
    t.push(&c2);
    assert_eq!(t.p.len(), 1);
    assert_eq!(t.p[0].p.metadata, cheaper.metadata);
    assert_eq!(t.p[0].p.words, cheaper.words);
    // The same result whichever is offered first.
    let mut u: Best<Passwords> = Best { p: Vec::new() };
    u.push(&c2);
    u.push(&c1);
    assert_eq!(u.p.len(), 1);
    assert_eq!(u.p[0].p.metadata.cost, cheaper.metadata.cost);
}

#[test]
fn bind_collapses_boundaries() {
    let t = table(&["granny", "zack", "miri", "panties"]);
    let left = t.bind(&End::Left);
    assert!(left.p.len() <= t.p.len());
    for e in left.p.iter() {
        assert_eq!(e.p.metadata.t.first_key, Bound::Any);
        assert!(e.is_binded(&End::Left));
    }
    let right = t.bind(&End::Right);
    assert!(right.p.len() <= t.p.len());
    for e in right.p.iter() {
        assert_eq!(e.p.metadata.t.last_key, Bound::Any);
    }
}

#[test]
fn filter_by_cost_exact() {
    let mut t = table(&["granny", "zack", "panties"]);
    let kept: Vec<Metadata> =
        t.p.iter().map(|b| b.p.metadata).filter(|m| m.cost <= 14).collect();
    t.filter_by_cost(14);
    let got: Vec<Metadata> = t.p.iter().map(|b| b.p.metadata).collect();
    assert_eq!(got, kept);
    for m in got.iter() {
        assert!(m.cost <= 14);
    }
}

#[test]
fn filter_by_length_window() {
    let mut t = table(&["granny", "zack", "grannypantiesgranny"]);
    let g = Goal { words_number: 1, min_length: 5, max_length: 7 };
    t.filter_by_length(&g);
    // One-word entries are final for a one-word goal: both bounds apply.
    assert_eq!(t.p.len(), 1);
    assert_eq!(t.p[0].p.words, vec!["granny".to_string()]);
}

#[test]
fn best_of_table() {
    let t = table(&["granny", "zack", "panties"]);
    let b = t.best().unwrap();
    assert_eq!(b.p.words, vec!["zack".to_string()]);
    assert_eq!(b.p.metadata.cost, 10);
}

#[test]
fn empty_table_errors() {
    let t: Best<Passwords> = Best { p: Vec::new() };
    assert!(matches!(t.best(), Err(Error::EmptyTable)));
    assert!(matches!(t.get_sample(3), Err(Error::EmptyTable)));
}

#[test]
fn unsupported_goal_errors() {
    let t = table(&["granny", "zack"]);
    let g = Goal { words_number: 0, min_length: 1, max_length: 30 };
    assert!(matches!(t.find_best(&g, 200), Err(Error::UnsupportedGoal)));
}

#[test]
fn goal_default() {
    let g = Goal::default();
    assert_eq!(g.words_number, 4);
    assert_eq!(g.min_length, 20);
    assert_eq!(g.max_length, 24);
}
