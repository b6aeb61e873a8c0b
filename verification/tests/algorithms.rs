use fabric::search::algorithms::{fuzzy_match, is_alphanumeric, is_lowercase, is_uppercase, Score};

fn value(score: Score) -> f32 {
    score.numerator as f32 / score.denominator as f32
}

#[test]
fn test_fuzzy_match() {
    assert!(fuzzy_match("hello", "hl").is_some());
    assert!(fuzzy_match("hello", "hx").is_none());
    assert!(fuzzy_match("HelloWorld", "HW").is_some());
}

#[test]
fn fuzzy_empty_pattern_scores_one() {
    assert_eq!(fuzzy_match("hello", ""), Some(Score { numerator: 1, denominator: 1 }));
    assert_eq!(fuzzy_match("", ""), Some(Score { numerator: 1, denominator: 1 }));
    assert_eq!(value(fuzzy_match("anything at all", "").unwrap()), 1.0);
}

#[test]
fn fuzzy_pattern_longer_than_text_fails() {
    assert_eq!(fuzzy_match("ab", "abc"), None);
    assert_eq!(fuzzy_match("", "a"), None);
}

#[test]
fn fuzzy_exact_scores() {
    // "hello" / "hl": h at 0 earns 5; l at 2 follows one skipped character.
    assert_eq!(fuzzy_match("hello", "hl"), Some(Score { numerator: 4, denominator: 10 }));
    // "HelloWorld" / "HW": H earns 10; W earns the camel bonus 2 and pays 4.
    assert_eq!(fuzzy_match("HelloWorld", "HW"), Some(Score { numerator: 8, denominator: 20 }));
    // "HelloWorld" / "elor": e at 1 earns 9; o pays 1; r pays 2; one leading character costs 3.
    assert_eq!(fuzzy_match("HelloWorld", "elor"), Some(Score { numerator: 3, denominator: 20 }));
    // A full match of a one-letter text is cut off at 1.
    assert_eq!(fuzzy_match("a", "a"), Some(Score { numerator: 1, denominator: 2 }));
}

#[test]
fn fuzzy_aligned_match_ranks_higher() {
    let aligned = fuzzy_match("HelloWorld", "HW").unwrap();
    let scattered = fuzzy_match("HelloWorld", "elor").unwrap();
    assert!(value(aligned) > value(scattered));
    assert!(aligned.is_at_least(&scattered));
    assert!(!scattered.is_at_least(&aligned));
}

#[test]
fn fuzzy_ignores_ascii_case() {
    assert_eq!(fuzzy_match("Hello", "HELLO"), fuzzy_match("Hello", "hello"));
    assert!(fuzzy_match("hello", "HL").is_some());
}

#[test]
fn fuzzy_word_boundary_bonus() {
    // '_' after a letter, and a letter after '_', each earn the boundary bonus.
    assert_eq!(fuzzy_match("a_b", "ab"), Some(Score { numerator: 4, denominator: 6 }));
    assert_eq!(fuzzy_match("a_b", "a_b"), Some(Score { numerator: 6, denominator: 6 }));
}

#[test]
fn fuzzy_leading_penalty_is_capped() {
    // First match at index 4: 3 * 4 = 12 is capped at 9.
    assert_eq!(fuzzy_match("xxxxa", "a"), Some(Score { numerator: 0, denominator: 10 }));
    assert_eq!(fuzzy_match("xxxxabcdefghijklmnop", "a"), Some(Score { numerator: 7, denominator: 40 }));
}

#[test]
fn ascii_classes() {
    assert!(is_uppercase('A') && is_uppercase('Z') && !is_uppercase('a') && !is_uppercase('['));
    assert!(is_lowercase('a') && is_lowercase('z') && !is_lowercase('A') && !is_lowercase('{'));
    assert!(is_alphanumeric('0') && is_alphanumeric('9') && is_alphanumeric('q'));
    assert!(!is_alphanumeric('_') && !is_alphanumeric(' ') && !is_alphanumeric('é'));
}
