use unistellar_search::codec::Identifier;
use unistellar_search::rank::{rank, rank_scored, score_candidate, Candidate, ScoredCandidate};
use unistellar_search::score::{Direction, Scorer};
use unistellar_search::token::SearchToken;

fn token(s: &str) -> SearchToken {
    SearchToken::make(String::from(s)).unwrap()
}

fn candidate(id: u128, fields: &[&str]) -> Candidate {
    Candidate {
        id: Identifier::new(id),
        fields: fields.iter().map(|f| String::from(*f)).collect(),
    }
}

fn ids(cands: &[Candidate]) -> Vec<u128> {
    cands.iter().map(|c| c.id.value()).collect()
}

#[test]
fn similarity_ranks_full_query_matches_first() {
    // Both fields containing the whole query outrank the partial
    // overlap, under the higher-is-better similarity strategy.
    let cands = vec![
        candidate(1, &["Computer Science"]),
        candidate(2, &["Data Science"]),
        candidate(3, &["History"]),
    ];
    let ranked = rank(cands, &token("science"), Scorer::Similarity);
    let order = ids(&ranked);
    assert_eq!(order.len(), 3);
    assert!(order[0] == 1 || order[0] == 2);
    assert!(order[1] == 1 || order[1] == 2);
    assert_eq!(order[2], 3);
}

#[test]
fn distance_ranks_the_closer_best_field_first() {
    // The first candidate's best field ("Amy" or "Nguyen") is at
    // adjusted distance 0; the other candidate is strictly farther.
    let cands = vec![
        candidate(2, &["bob", "Bob", "Smith"]),
        candidate(1, &["choobipanda", "Amy", "Nguyen"]),
    ];
    let ranked = rank(cands, &token("Amy Nguyen"), Scorer::Distance);
    assert_eq!(ids(&ranked), vec![1, 2]);
}

#[test]
fn equal_scores_keep_source_order() {
    // All candidates score identically, so the source order is the
    // ranked order.
    let cands = vec![
        candidate(30, &["History"]),
        candidate(10, &["History"]),
        candidate(20, &["History"]),
    ];
    let ranked = rank(cands, &token("science"), Scorer::Distance);
    assert_eq!(ids(&ranked), vec![30, 10, 20]);
}

#[test]
fn ranking_is_deterministic_under_re_running() {
    let build = || {
        vec![
            candidate(1, &["Intro to Life Science", "BIO 1110"]),
            candidate(2, &["Fundamentals of Data Science", "CS 2410"]),
            candidate(3, &["History of Art", "ART 2000"]),
        ]
    };
    let q = token("science");
    let first = ids(&rank(build(), &q, Scorer::Similarity));
    let second = ids(&rank(build(), &q, Scorer::Similarity));
    assert_eq!(first, second);
}

#[test]
fn candidates_without_fields_sort_last() {
    let cands = vec![
        candidate(1, &[]),
        candidate(2, &["science"]),
    ];
    let q = token("science");
    assert_eq!(ids(&rank(cands, &q, Scorer::Similarity)), vec![2, 1]);
    let cands = vec![
        candidate(1, &[]),
        candidate(2, &["science"]),
    ];
    assert_eq!(ids(&rank(cands, &q, Scorer::Distance)), vec![2, 1]);
}

#[test]
fn best_field_dominates_the_candidate_score() {
    // A candidate matching well on one field scores as if that were
    // its only field, however poorly the others match.
    let q = token("science");
    for scorer in [Scorer::Similarity, Scorer::Distance] {
        let many = candidate(1, &["zzzz", "science", "qqqqqqq"]);
        let single = candidate(2, &["science"]);
        assert_eq!(
            score_candidate(scorer, &q, &many),
            score_candidate(scorer, &q, &single),
        );
    }
}

#[test]
fn full_candidate_set_comes_back() {
    let cands = vec![
        candidate(1, &["a"]),
        candidate(2, &["b"]),
        candidate(3, &["c"]),
        candidate(4, &[]),
    ];
    let ranked = rank(cands, &token("a"), Scorer::Similarity);
    let mut order = ids(&ranked);
    order.sort();
    assert_eq!(order, vec![1, 2, 3, 4]);
}

#[test]
fn sort_is_stable_on_explicit_scores() {
    let entries = vec![
        ScoredCandidate { candidate: candidate(1, &[]), score: 5, source_index: 0 },
        ScoredCandidate { candidate: candidate(2, &[]), score: 9, source_index: 1 },
        ScoredCandidate { candidate: candidate(3, &[]), score: 5, source_index: 2 },
        ScoredCandidate { candidate: candidate(4, &[]), score: 9, source_index: 3 },
    ];
    let sorted = rank_scored(entries, Direction::HigherIsBetter);
    let order: Vec<u128> = sorted.iter().map(|e| e.candidate.id.value()).collect();
    assert_eq!(order, vec![2, 4, 1, 3]);

    let entries = vec![
        ScoredCandidate { candidate: candidate(1, &[]), score: 5, source_index: 0 },
        ScoredCandidate { candidate: candidate(2, &[]), score: 9, source_index: 1 },
        ScoredCandidate { candidate: candidate(3, &[]), score: 5, source_index: 2 },
        ScoredCandidate { candidate: candidate(4, &[]), score: 9, source_index: 3 },
    ];
    let sorted = rank_scored(entries, Direction::LowerIsBetter);
    let order: Vec<u128> = sorted.iter().map(|e| e.candidate.id.value()).collect();
    assert_eq!(order, vec![1, 3, 2, 4]);
}
