use cryptopals::score::{Score, Scorer};

#[test]
fn empty_corpus() {
    let scorer = Scorer::new(b"");
    assert_eq!(scorer.score(b"A crab emoji"), Score::new(0, 1));
}

#[test]
fn empty_text() {
    let scorer = Scorer::new(b"doing cryptopals in rust");
    assert_eq!(scorer.score(b""), Score::new(0, 1));
}

#[test]
fn one_char_not_in_corpus() {
    let scorer = Scorer::new(b"doing cryptopals in rust");
    assert_eq!(scorer.score(b"z"), Score::new(0, 1));
}

#[test]
fn one_char_in_corpus() {
    let scorer = Scorer::new(b"doing cryptopals in rust");
    assert_eq!(scorer.score(b" "), Score::new(3, 1));
    assert_eq!(scorer.score(b"a"), Score::new(1, 1));
}

#[test]
fn multiple_chars_in_corpus() {
    let scorer = Scorer::new(b"doing cryptopals in rust");
    assert_eq!(scorer.score(b"a z "), Score::new(1 + 3 + 0 + 3, 4));
}

#[test]
fn scores_compare_by_value() {
    assert_eq!(Score::new(3, 2), Score::new(6, 4));
    assert_ne!(Score::new(3, 2), Score::new(7, 4));
    assert!(Score::new(3, 2).less_than(&Score::new(7, 4)));
    assert!(!Score::new(7, 4).less_than(&Score::new(3, 2)));
    assert!(!Score::new(6, 4).less_than(&Score::new(3, 2)));
}

#[test]
fn scores_compare_exactly_at_large_values() {
    let big = u128::MAX;
    let a = Score::new(big, usize::MAX);
    let b = Score::new(big - 1, usize::MAX);
    assert!(b.less_than(&a));
    assert!(!a.less_than(&b));
    assert_ne!(a, b);
    assert_eq!(Score::new(u128::MAX - 1, usize::MAX - 1), Score::new(u128::MAX - 1, usize::MAX - 1));
}

#[test]
fn score_is_average_count() {
    let scorer = Scorer::new(b"aab");
    assert_eq!(scorer.score(b"ab"), Score::new(3, 2));
    assert!(scorer.score(b"b").less_than(&scorer.score(b"ab")));
}

#[test]
fn scores_order_with_operators() {
    assert!(Score::new(3, 2) < Score::new(7, 4));
    assert!(Score::new(6, 4) <= Score::new(3, 2));
    assert!(Score::new(2, 1) > Score::new(7, 4));
    assert_eq!(Score::new(0, 5).partial_cmp(&Score::new(0, 1)), Some(std::cmp::Ordering::Equal));
}
