use unistellar_search::score::{distance_score, Direction, Scorer};
use unistellar_search::token::SearchToken;

fn token(s: &str) -> SearchToken {
    SearchToken::make(String::from(s)).unwrap()
}

#[test]
fn strategies_declare_their_directions() {
    assert_eq!(Scorer::Similarity.direction(), Direction::HigherIsBetter);
    assert_eq!(Scorer::Distance.direction(), Direction::LowerIsBetter);
}

#[test]
fn distance_exact_values() {
    // The classic pair: three edits, length difference one.
    assert_eq!(distance_score("kitten", "sitting"), 3 - 1);
    // Identical texts: zero.
    assert_eq!(distance_score("science", "science"), 0);
    // No shared characters: substitutions plus deletions, minus the
    // length difference.
    assert_eq!(distance_score("Amy Nguyen", "bob"), 3);
    // A field that extends the query is a pure-insertion tie.
    assert_eq!(distance_score("abc", "abcd"), 0);
    // The query reduced to one of its words: pure deletions.
    assert_eq!(distance_score("Amy Nguyen", "Amy"), 0);
}

#[test]
fn distance_exact_match_beats_non_subsequence_fields() {
    let q = "abc";
    assert_eq!(distance_score(q, q), 0);
    // Same length but different: strictly worse.
    assert_eq!(distance_score(q, "abd"), 1);
    // Not in a subsequence relation with the query: strictly worse.
    assert!(distance_score(q, "xbyd") > 0);
    assert!(distance_score(q, "History") > 0);
}

#[test]
fn distance_is_case_sensitive_raw_comparison() {
    assert!(distance_score("science", "Science") > 0);
}

#[test]
fn similarity_exact_match_beats_worse_fields() {
    let q = token("science");
    let exact = Scorer::Similarity.score(&q, "science");
    let partial = Scorer::Similarity.score(&q, "History");
    assert!(exact > partial);
}

#[test]
fn similarity_no_match_takes_the_sentinel_minimum() {
    let q = token("science");
    assert_eq!(Scorer::Similarity.score(&q, "bob"), i64::MIN);
}

#[test]
fn scoring_is_deterministic() {
    let q = token("science");
    for field in ["Data Science", "Computer Science", "History", ""] {
        let a = Scorer::Similarity.score(&q, field);
        let b = Scorer::Similarity.score(&q, field);
        assert_eq!(a, b);
        let a = Scorer::Distance.score(&q, field);
        let b = Scorer::Distance.score(&q, field);
        assert_eq!(a, b);
    }
}
