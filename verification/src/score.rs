//! Fuzzy relevance scoring between a search token and a field text.
//!
//! Two swappable strategies are supported, each with an explicitly
//! declared comparison direction, so the ranker never hard-codes a
//! sort order:
//!
//! - a similarity score (higher is better) delegated to a
//!   subsequence-alignment matcher from an outside crate;
//! - an edit-distance score (lower is better) computed here: the
//!   minimum number of character insertions, deletions and
//!   substitutions, reduced by the absolute length difference of the
//!   two texts, so that a query sitting inside a much longer field is
//!   penalized less than its raw edit count would suggest.
//!
//! Both strategies are deterministic functions of the two texts.

use vstd::prelude::*;

use crate::token::SearchToken;

verus! {

/// The direction in which a strategy's scores improve.
#[derive(Debug, Clone, Copy, PartialEq, Eq, Structural)]
pub enum Direction {
    HigherIsBetter,
    LowerIsBetter,
}

/// `a` is a strictly better score than `b` in direction `d`.
pub open spec fn strictly_better(d: Direction, a: int, b: int) -> bool {
    match d {
        Direction::HigherIsBetter => a > b,
        Direction::LowerIsBetter => a < b,
    }
}

/// The worst score a candidate can carry in direction `d`; assigned
/// to candidates with no searchable field at all.
pub open spec fn worst_score(d: Direction) -> int {
    match d {
        Direction::HigherIsBetter => i64::MIN as int,
        Direction::LowerIsBetter => i64::MAX as int,
    }
}

/// What the similarity matcher of the outside crate returns for a
/// choice text and a pattern: a deterministic function of the two
/// texts alone (`None` when the pattern does not match at all).
pub uninterp spec fn skim_score(choice: Seq<char>, pattern: Seq<char>) -> Option<i64>;

/// Relies on `fuzzy_matcher::skim::SkimMatcherV2` with its default
/// configuration, through `FuzzyMatcher::fuzzy_match`: the score is
/// computed by character-level alignment of the two texts and
/// depends on nothing but them.
#[verifier::external_body]
fn skim_match(choice: &str, pattern: &str) -> (r: Option<i64>)
    ensures
        r == skim_score(choice@, pattern@),
{
    fuzzy_matcher::FuzzyMatcher::fuzzy_match(
        &fuzzy_matcher::skim::SkimMatcherV2::default(),
        choice,
        pattern,
    )
}

/// `|a - b|` on lengths.
pub open spec fn abs_diff(a: nat, b: nat) -> nat {
    if a >= b {
        (a - b) as nat
    } else {
        (b - a) as nat
    }
}

/// Smallest of three costs.
pub open spec fn min3(a: nat, b: nat, c: nat) -> nat {
    if a <= b && a <= c {
        a
    } else if b <= c {
        b
    } else {
        c
    }
}

/// Edit distance between two texts: the least number of single
/// character insertions, deletions and substitutions turning one
/// into the other.
pub open spec fn lev(a: Seq<char>, b: Seq<char>) -> nat
    decreases a.len(), b.len(),
{
    if a.len() == 0 {
        b.len()
    } else if b.len() == 0 {
        a.len()
    } else {
        let del = lev(a.drop_last(), b) + 1;
        let ins = lev(a, b.drop_last()) + 1;
        let sub = lev(a.drop_last(), b.drop_last()) + if a.last() == b.last() {
            0nat
        } else {
            1nat
        };
        min3(del, ins, sub)
    }
}

/// Edit distance never exceeds the longer text's length.
pub proof fn lemma_lev_le_max(a: Seq<char>, b: Seq<char>)
    ensures
        lev(a, b) <= a.len() || lev(a, b) <= b.len(),
        lev(a, b) <= if a.len() >= b.len() {
            a.len()
        } else {
            b.len()
        },
    decreases a.len(), b.len(),
{
    if a.len() > 0 && b.len() > 0 {
        lemma_lev_le_max(a.drop_last(), b.drop_last());
    }
}

/// Edit distance is at least the length difference.
pub proof fn lemma_lev_ge_diff(a: Seq<char>, b: Seq<char>)
    ensures
        lev(a, b) >= abs_diff(a.len(), b.len()),
    decreases a.len(), b.len(),
{
    if a.len() > 0 && b.len() > 0 {
        lemma_lev_ge_diff(a.drop_last(), b);
        lemma_lev_ge_diff(a, b.drop_last());
        lemma_lev_ge_diff(a.drop_last(), b.drop_last());
    }
}

/// A text is at distance zero from itself.
pub proof fn lemma_lev_self(a: Seq<char>)
    ensures
        lev(a, a) == 0,
    decreases a.len(),
{
    if a.len() > 0 {
        lemma_lev_self(a.drop_last());
        lemma_lev_ge_diff(a.drop_last(), a);
        lemma_lev_ge_diff(a, a.drop_last());
    }
}

/// Distance zero forces the texts to be equal.
pub proof fn lemma_lev_zero_eq(a: Seq<char>, b: Seq<char>)
    requires
        lev(a, b) == 0,
    ensures
        a == b,
    decreases a.len(), b.len(),
{
    if a.len() == 0 {
        assert(a =~= b);
    } else if b.len() == 0 {
        assert(a =~= b);
    } else {
        lemma_lev_ge_diff(a.drop_last(), b);
        lemma_lev_ge_diff(a, b.drop_last());
        assert(lev(a.drop_last(), b.drop_last()) == 0 && a.last() == b.last());
        lemma_lev_zero_eq(a.drop_last(), b.drop_last());
        assert(a =~= a.drop_last().push(a.last()));
        assert(b =~= b.drop_last().push(b.last()));
    }
}

/// The edit-distance score: raw distance reduced by the length
/// difference, capped at the largest representable score.
pub open spec fn dist_score_spec(q: Seq<char>, f: Seq<char>) -> int {
    let adj = lev(q, f) - abs_diff(q.len(), f.len());
    if adj > i64::MAX as int {
        i64::MAX as int
    } else {
        adj
    }
}

/// Collect the characters of a text.
fn chars_of(s: &str) -> (v: Vec<char>)
    ensures
        v@ == s@,
{
    let n = s.unicode_len();
    let mut v: Vec<char> = Vec::new();
    let mut i: usize = 0;
    while i < n
        invariant
            i <= n,
            n == s@.len(),
            v@ =~= s@.take(i as int),
        decreases n - i,
    {
        v.push(s.get_char(i));
        i += 1;
    }
    proof {
        assert(s@.take(n as int) =~= s@);
    }
    v
}

/// `x + 1`, saturating at the largest `usize`.
fn succ_sat(x: usize) -> (r: usize)
    ensures
        r as int == if x as int + 1 <= usize::MAX as int {
            x as int + 1
        } else {
            usize::MAX as int
        },
{
    if x == usize::MAX {
        x
    } else {
        x + 1
    }
}

/// Smaller of two costs.
fn min_usize(a: usize, b: usize) -> (r: usize)
    ensures
        r == if a <= b {
            a
        } else {
            b
        },
{
    if a <= b {
        a
    } else {
        b
    }
}

/// Edit distance by dynamic programming over prefix pairs.
fn lev_exec(a: &Vec<char>, b: &Vec<char>) -> (r: usize)
    ensures
        r == lev(a@, b@),
{
    let m = a.len();
    let n = b.len();
    let mut prev: Vec<usize> = Vec::new();
    while prev.len() <= n
        invariant
            prev@.len() <= n + 1,
            n == b@.len(),
            forall|jj: int| 0 <= jj < prev@.len() ==> prev@[jj] == lev(a@.take(0), b@.take(jj)),
        decreases n + 1 - prev@.len(),
    {
        proof {
            assert(a@.take(0) =~= Seq::<char>::empty());
        }
        let l = prev.len();
        prev.push(l);
    }
    let mut i: usize = 0;
    while i < m
        invariant
            i <= m,
            m == a@.len(),
            n == b@.len(),
            prev@.len() == n + 1,
            forall|jj: int| 0 <= jj <= n ==> prev@[jj] == lev(a@.take(i as int), b@.take(jj)),
        decreases m - i,
    {
        let mut cur: Vec<usize> = Vec::new();
        proof {
            assert(b@.take(0) =~= Seq::<char>::empty());
        }
        cur.push(i + 1);
        let mut j: usize = 0;
        while j < n
            invariant
                i < m,
                j <= n,
                m == a@.len(),
                n == b@.len(),
                prev@.len() == n + 1,
                forall|jj: int| 0 <= jj <= n ==> prev@[jj] == lev(a@.take(i as int), b@.take(jj)),
                cur@.len() == j + 1,
                forall|jj: int|
                    0 <= jj <= j ==> cur@[jj] == lev(a@.take(i + 1), b@.take(jj)),
            decreases n - j,
        {
            let cost: usize = if a[i] == b[j] {
                0
            } else {
                1
            };
            let del = succ_sat(prev[j + 1]);
            let ins = succ_sat(cur[j]);
            proof {
                lemma_lev_le_max(a@.take(i as int), b@.take(j as int));
            }
            let sub = prev[j] + cost;
            let cell = min_usize(min_usize(del, ins), sub);
            proof {
                let pa = a@.take(i + 1);
                let pb = b@.take(j + 1);
                assert(pa.drop_last() =~= a@.take(i as int));
                assert(pb.drop_last() =~= b@.take(j as int));
                assert(pa.last() == a@[i as int]);
                assert(pb.last() == b@[j as int]);
                lemma_lev_le_max(pa, pb);
                assert(lev(pa, pb) <= usize::MAX as int);
            }
            cur.push(cell);
            j += 1;
        }
        prev = cur;
        i += 1;
    }
    proof {
        assert(a@.take(m as int) =~= a@);
        assert(b@.take(n as int) =~= b@);
    }
    prev[n]
}

/// Edit-distance score between a query and one field.
pub fn distance_score(query: &str, field: &str) -> (r: i64)
    ensures
        r as int == dist_score_spec(query@, field@),
{
    let qc = chars_of(query);
    let fc = chars_of(field);
    let d = lev_exec(&qc, &fc);
    let diff: usize = if qc.len() >= fc.len() {
        qc.len() - fc.len()
    } else {
        fc.len() - qc.len()
    };
    proof {
        lemma_lev_ge_diff(query@, field@);
    }
    let adj = d - diff;
    if (adj as u64) > (i64::MAX as u64) {
        i64::MAX
    } else {
        adj as i64
    }
}

/// A scoring strategy. Each strategy declares its own comparison
/// direction; one search call uses one strategy throughout.
#[derive(Debug, Clone, Copy, PartialEq, Eq, Structural)]
pub enum Scorer {
    /// Alignment-based similarity; higher scores are better and a
    /// field the pattern cannot match at all takes the minimum score.
    Similarity,
    /// Length-adjusted edit distance; lower scores are better.
    Distance,
}

impl Scorer {
    /// The direction in which this strategy's scores improve.
    pub open spec fn spec_direction(self) -> Direction {
        match self {
            Scorer::Similarity => Direction::HigherIsBetter,
            Scorer::Distance => Direction::LowerIsBetter,
        }
    }

    /// Runtime mirror of [`Scorer::spec_direction`].
    #[verifier::when_used_as_spec(spec_direction)]
    pub fn direction(self) -> (d: Direction)
        ensures
            d == self.spec_direction(),
    {
        match self {
            Scorer::Similarity => Direction::HigherIsBetter,
            Scorer::Distance => Direction::LowerIsBetter,
        }
    }

    /// The score this strategy assigns to one (query, field) pair.
    pub open spec fn score_spec(self, q: Seq<char>, f: Seq<char>) -> int {
        match self {
            Scorer::Similarity => match skim_score(f, q) {
                Some(s) => s as int,
                None => i64::MIN as int,
            },
            Scorer::Distance => dist_score_spec(q, f),
        }
    }

    /// Score one field text against the query. Deterministic: the
    /// result is a function of the strategy and the two texts alone.
    pub fn score(self, query: &SearchToken, field: &str) -> (r: i64)
        ensures
            r as int == self.score_spec(query@, field@),
    {
        match self {
            Scorer::Similarity => match skim_match(field, query.as_str()) {
                Some(s) => s,
                None => i64::MIN,
            },
            Scorer::Distance => distance_score(query.as_str(), field),
        }
    }
}

/// `a` is a subsequence of `b`: the characters of `a` appear in `b`
/// in order (matching equal final characters greedily).
pub open spec fn is_subseq(a: Seq<char>, b: Seq<char>) -> bool
    decreases b.len(),
{
    if a.len() == 0 {
        true
    } else if b.len() == 0 {
        false
    } else if a.last() == b.last() {
        is_subseq(a.drop_last(), b.drop_last())
    } else {
        is_subseq(a, b.drop_last())
    }
}

/// Dropping the last character of a subsequence keeps it one.
proof fn lemma_subseq_drop_a(a: Seq<char>, c: Seq<char>)
    requires
        a.len() > 0,
        is_subseq(a, c),
    ensures
        is_subseq(a.drop_last(), c),
    decreases c.len(),
{
    let dla = a.drop_last();
    if a.last() == c.last() {
        if dla.len() == 0 {
        } else if dla.last() == c.last() {
            lemma_subseq_drop_a(dla, c.drop_last());
        }
    } else {
        lemma_subseq_drop_a(a, c.drop_last());
        if dla.len() == 0 {
        } else if dla.last() == c.last() {
            lemma_subseq_drop_a(dla, c.drop_last());
        }
    }
}

/// Extending the longer text keeps a subsequence one.
proof fn lemma_subseq_extend_b(a: Seq<char>, b: Seq<char>)
    requires
        b.len() > 0,
        is_subseq(a, b.drop_last()),
    ensures
        is_subseq(a, b),
{
    if a.len() == 0 {
    } else if a.last() == b.last() {
        lemma_subseq_drop_a(a, b.drop_last());
    }
}

/// Edit distance is symmetric.
proof fn lemma_lev_sym(a: Seq<char>, b: Seq<char>)
    ensures
        lev(a, b) == lev(b, a),
    decreases a.len(), b.len(),
{
    if a.len() > 0 && b.len() > 0 {
        lemma_lev_sym(a.drop_last(), b);
        lemma_lev_sym(a, b.drop_last());
        lemma_lev_sym(a.drop_last(), b.drop_last());
    }
}

/// When the edit distance is exactly the length difference, the
/// shorter text is a subsequence of the longer: the optimal edit
/// script consists of insertions alone.
proof fn lemma_lev_eq_diff_subseq(a: Seq<char>, b: Seq<char>)
    requires
        a.len() <= b.len(),
        lev(a, b) == b.len() - a.len(),
    ensures
        is_subseq(a, b),
    decreases b.len(),
{
    if a.len() > 0 {
        let dla = a.drop_last();
        let dlb = b.drop_last();
        lemma_lev_ge_diff(dla, b);
        lemma_lev_ge_diff(a, dlb);
        lemma_lev_ge_diff(dla, dlb);
        let cost: nat = if a.last() == b.last() {
            0nat
        } else {
            1nat
        };
        let sub = lev(dla, dlb) + cost;
        let ins = lev(a, dlb) + 1;
        if sub == b.len() - a.len() {
            assert(cost == 0 && lev(dla, dlb) == dlb.len() - dla.len());
            lemma_lev_eq_diff_subseq(dla, dlb);
        } else {
            assert(ins == b.len() - a.len());
            assert(a.len() < b.len());
            lemma_lev_eq_diff_subseq(a, dlb);
            lemma_subseq_extend_b(a, b);
        }
    }
}

/// Conversely, a subsequence sits at edit distance exactly the
/// length difference from the longer text.
proof fn lemma_subseq_lev(a: Seq<char>, b: Seq<char>)
    requires
        is_subseq(a, b),
    ensures
        a.len() <= b.len(),
        lev(a, b) == b.len() - a.len(),
    decreases b.len(),
{
    lemma_lev_ge_diff(a, b);
    if a.len() > 0 {
        if a.last() == b.last() {
            lemma_subseq_lev(a.drop_last(), b.drop_last());
        } else {
            lemma_subseq_lev(a, b.drop_last());
        }
    }
}

/// Exact-match monotonicity for the distance strategy: a field
/// identical to the query scores 0, and every other field scores
/// strictly worse — except a field in a subsequence relation with
/// the query, for which the length adjustment cancels the whole edit
/// distance (e.g. the field `abcd` against the query `abc`); those
/// ties are excluded here and pinned down by
/// [`lemma_distance_subseq_tie`].
pub proof fn lemma_distance_exact_strict(q: Seq<char>, f: Seq<char>)
    requires
        f != q,
        !(q.len() <= f.len() && is_subseq(q, f)),
        !(f.len() < q.len() && is_subseq(f, q)),
    ensures
        dist_score_spec(q, q) == 0,
        dist_score_spec(q, f) >= 1,
        strictly_better(
            Scorer::Distance.spec_direction(),
            dist_score_spec(q, q),
            dist_score_spec(q, f),
        ),
{
    lemma_distance_exact_match(q, f);
    lemma_lev_ge_diff(q, f);
    if lev(q, f) == abs_diff(q.len(), f.len()) {
        if q.len() <= f.len() {
            lemma_lev_eq_diff_subseq(q, f);
            if q.len() == f.len() {
                lemma_subseq_lev(q, f);
                lemma_lev_zero_eq(q, f);
            }
        } else {
            lemma_lev_sym(q, f);
            lemma_lev_eq_diff_subseq(f, q);
        }
    }
}

/// The ties excluded above really are ties: when the shorter text is
/// a subsequence of the longer, the adjusted distance is exactly 0.
pub proof fn lemma_distance_subseq_tie(q: Seq<char>, f: Seq<char>)
    requires
        (q.len() <= f.len() && is_subseq(q, f)) || (f.len() < q.len() && is_subseq(f, q)),
    ensures
        dist_score_spec(q, f) == 0,
{
    if q.len() <= f.len() {
        lemma_subseq_lev(q, f);
    } else {
        lemma_lev_sym(q, f);
        lemma_subseq_lev(f, q);
    }
}

/// Every score a strategy can assign fits the signed 64-bit range.
pub proof fn lemma_score_spec_in_range(sc: Scorer, q: Seq<char>, f: Seq<char>)
    ensures
        i64::MIN as int <= sc.score_spec(q, f) <= i64::MAX as int,
{
    match sc {
        Scorer::Similarity => {
        },
        Scorer::Distance => {
            lemma_lev_ge_diff(q, f);
        },
    }
}

/// A field identical to the query is at adjusted distance zero, and
/// no field scores below zero: an exact match is always among the
/// best possible fields under the distance strategy.
pub proof fn lemma_distance_exact_match(q: Seq<char>, f: Seq<char>)
    ensures
        dist_score_spec(q, q) == 0,
        dist_score_spec(q, f) >= 0,
{
    lemma_lev_self(q);
    lemma_lev_ge_diff(q, f);
}

} // verus!
