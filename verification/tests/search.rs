use granny_pass::password::{Best, Goal, Password, Passwords};

fn word(w: &str) -> Password {
    Password::from_word(w).unwrap()
}

fn table(words: &[&str]) -> Best<Passwords> {
    let mut t: Best<Passwords> = Best { p: Vec::new() };
    for w in words {
        t.push(&word(w));
    }
    t
}

#[test]
fn goal_satisfaction() {
    let t = table(&["granny", "panty", "quart", "zesty", "mirth"]);
    let g = Goal { words_number: 4, min_length: 20, max_length: 24 };
    let best = t.find_best(&g, 500).unwrap();
    assert_eq!(best.p.words.len(), 4);
    let len = best.p.metadata.t.length;
    assert!(20 <= len && len <= 24);
    assert!(best.p.metadata.cost <= 500);
}

#[test]
fn one_word_goal() {
    let t = table(&["granny", "zack", "panties"]);
    let g = Goal { words_number: 1, min_length: 4, max_length: 10 };
    let best = t.find_best(&g, 500).unwrap();
    assert_eq!(best.p.words, vec!["zack".to_string()]);
    assert_eq!(best.p.metadata.cost, 10);
}

#[test]
fn sample_then_exact_consistency() {
    // Every word is 5 or 6 characters long, so any 4 of them land inside
    // the goal's window and both runs must succeed.
    let t = table(&["granny", "panty", "quart", "zesty", "mirth", "fjord", "waltz"]);
    let g = Goal { words_number: 4, min_length: 20, max_length: 24 };
    let sample = t.get_sample(4).unwrap();
    let estimate = sample.find_best(&g, u16::MAX).unwrap();
    let ceiling = u16::try_from(estimate.p.metadata.cost).unwrap();
    let exact = t.find_best(&g, ceiling).unwrap();
    assert!(exact.p.metadata.cost <= ceiling as u64);
}

#[test]
fn sample_is_a_subtable() {
    let t = table(&["granny", "panty", "quart", "zesty", "mirth"]);
    let sample = t.get_sample(2).unwrap();
    assert_eq!(sample.p.len(), 2);
    for e in sample.p.iter() {
        assert!(t
            .p
            .iter()
            .any(|o| o.p.metadata == e.p.metadata && o.p.words == e.p.words));
    }
    let all = t.get_sample(100).unwrap();
    assert_eq!(all.p.len(), t.p.len());
}

#[test]
fn two_word_goal() {
    let t = table(&["granny", "zack", "miri", "panties"]);
    let g = Goal { words_number: 2, min_length: 8, max_length: 13 };
    let best = t.find_best(&g, 500).unwrap();
    assert_eq!(best.p.words.len(), 2);
    let len = best.p.metadata.t.length;
    assert!(8 <= len && len <= 13);
}
