//! Ordering candidates by relevance.
//!
//! One reusable engine serves every searchable entity kind: a
//! candidate carries its identifier and whatever text fields that
//! kind exposes to search. Each candidate's score is the best of its
//! field scores — matching well on any one field is as good as
//! matching on all of them — and candidates are then sorted in the
//! strategy's declared direction. The sort is stable: candidates
//! with equal scores keep the candidate source's order, which is a
//! meaningful fallback signal. Nothing is dropped, added or changed;
//! the ordering is the sole deliverable.

use vstd::prelude::*;

use crate::codec::Identifier;
use crate::score::{strictly_better, worst_score, Direction, Scorer};
use crate::token::SearchToken;

verus! {

/// One store-returned record eligible for ranking: its identifier
/// and the text fields the entity kind exposes to search.
#[derive(Debug)]
pub struct Candidate {
    pub id: Identifier,
    pub fields: Vec<String>,
}

/// A candidate together with its reduced score and its position in
/// the candidate source's output (the stable tie-break).
#[derive(Debug)]
pub struct ScoredCandidate {
    pub candidate: Candidate,
    pub score: i64,
    pub source_index: usize,
}

/// The best of the field scores, in the strategy's direction; a
/// candidate without searchable fields carries the worst score.
pub open spec fn fields_best(sc: Scorer, q: Seq<char>, fields: Seq<Seq<char>>) -> int
    decreases fields.len(),
{
    if fields.len() == 0 {
        worst_score(sc.spec_direction())
    } else {
        let rest = fields_best(sc, q, fields.drop_last());
        let s = sc.score_spec(q, fields.last());
        if strictly_better(sc.spec_direction(), s, rest) {
            s
        } else {
            rest
        }
    }
}

/// The single score a candidate is ranked by.
pub open spec fn candidate_score(sc: Scorer, q: Seq<char>, c: Candidate) -> int {
    fields_best(sc, q, c.fields.deep_view())
}

/// Non-strict ranking order between scored candidates.
pub open spec fn entry_le(d: Direction, x: ScoredCandidate, y: ScoredCandidate) -> bool {
    strictly_better(d, x.score as int, y.score as int) || (x.score == y.score
        && x.source_index <= y.source_index)
}

/// Strict ranking order: a strictly better score, or an equal score
/// with an earlier source position.
pub open spec fn entry_lt(d: Direction, x: ScoredCandidate, y: ScoredCandidate) -> bool {
    strictly_better(d, x.score as int, y.score as int) || (x.score == y.score
        && x.source_index < y.source_index)
}

/// Insert `x` into `r` directly after every element whose score is
/// not strictly worse than `x`'s: the insertion step of a stable
/// insertion sort.
pub open spec fn insert_ranked(r: Seq<ScoredCandidate>, x: ScoredCandidate, d: Direction) -> Seq<
    ScoredCandidate,
>
    decreases r.len(),
{
    if r.len() == 0 {
        seq![x]
    } else if strictly_better(d, x.score as int, r.last().score as int) {
        insert_ranked(r.drop_last(), x, d).push(r.last())
    } else {
        r.push(x)
    }
}

/// Stable insertion sort of scored candidates in direction `d`.
pub open spec fn sort_ranked(s: Seq<ScoredCandidate>, d: Direction) -> Seq<ScoredCandidate>
    decreases s.len(),
{
    if s.len() == 0 {
        Seq::empty()
    } else {
        insert_ranked(sort_ranked(s.drop_last(), d), s.last(), d)
    }
}

/// The candidates paired with their scores and source positions.
pub open spec fn scored_seq(sc: Scorer, q: Seq<char>, cands: Seq<Candidate>) -> Seq<
    ScoredCandidate,
> {
    Seq::new(
        cands.len(),
        |i: int|
            ScoredCandidate {
                candidate: cands[i],
                score: candidate_score(sc, q, cands[i]) as i64,
                source_index: i as usize,
            },
    )
}

/// What `rank` returns: the candidates alone, in ranked order.
pub open spec fn ranked_candidates(sc: Scorer, q: Seq<char>, cands: Seq<Candidate>) -> Seq<
    Candidate,
> {
    sort_ranked(scored_seq(sc, q, cands), sc.spec_direction()).map_values(
        |e: ScoredCandidate| e.candidate,
    )
}

/// The output is strictly ordered: better scores first, and source
/// order among equal scores.
pub open spec fn sorted_strict(s: Seq<ScoredCandidate>, d: Direction) -> bool {
    forall|i: int, j: int| 0 <= i < j < s.len() ==> entry_lt(d, s[i], s[j])
}

/// Every element's source position is below `p`.
pub open spec fn all_pos_lt(s: Seq<ScoredCandidate>, p: usize) -> bool {
    forall|i: int| 0 <= i < s.len() ==> (#[trigger] s[i]).source_index < p
}

/// Source positions are strictly increasing along the sequence.
pub open spec fn pos_increasing(s: Seq<ScoredCandidate>) -> bool {
    forall|i: int, j: int| 0 <= i < j < s.len() ==> s[i].source_index < s[j].source_index
}

proof fn lemma_insert_ranked_len(r: Seq<ScoredCandidate>, x: ScoredCandidate, d: Direction)
    ensures
        insert_ranked(r, x, d).len() == r.len() + 1,
    decreases r.len(),
{
    if r.len() > 0 && strictly_better(d, x.score as int, r.last().score as int) {
        lemma_insert_ranked_len(r.drop_last(), x, d);
    }
}

proof fn lemma_insert_ranked_elems(r: Seq<ScoredCandidate>, x: ScoredCandidate, d: Direction)
    ensures
        insert_ranked(r, x, d).len() == r.len() + 1,
        forall|k: int|
            0 <= k < r.len() + 1 ==> (#[trigger] insert_ranked(r, x, d)[k] == x || r.contains(
                insert_ranked(r, x, d)[k],
            )),
    decreases r.len(),
{
    lemma_insert_ranked_len(r, x, d);
    if r.len() == 0 {
    } else if strictly_better(d, x.score as int, r.last().score as int) {
        let dl = r.drop_last();
        lemma_insert_ranked_elems(dl, x, d);
        let v = insert_ranked(dl, x, d).push(r.last());
        assert(r[r.len() - 1] == r.last());
        assert forall|k: int| 0 <= k < r.len() + 1 implies (#[trigger] v[k] == x || r.contains(
            v[k],
        )) by {
            if k < r.len() {
                if insert_ranked(dl, x, d)[k] == x {
                } else {
                    let i = choose|i: int| 0 <= i < dl.len() && dl[i] == insert_ranked(dl, x, d)[k];
                    assert(r[i] == v[k]);
                }
            }
        }
    } else {
        assert forall|k: int| 0 <= k < r.len() + 1 implies (#[trigger] r.push(x)[k] == x
            || r.contains(r.push(x)[k])) by {
            if k < r.len() {
                assert(r[k] == r.push(x)[k]);
            }
        }
    }
}

proof fn lemma_insert_ranked_multiset(r: Seq<ScoredCandidate>, x: ScoredCandidate, d: Direction)
    ensures
        insert_ranked(r, x, d).to_multiset() =~= r.to_multiset().insert(x),
    decreases r.len(),
{
    broadcast use vstd::seq_lib::group_to_multiset_ensures;

    if r.len() == 0 {
        assert(seq![x] =~= Seq::<ScoredCandidate>::empty().push(x));
    } else if strictly_better(d, x.score as int, r.last().score as int) {
        let dl = r.drop_last();
        lemma_insert_ranked_multiset(dl, x, d);
        assert(r =~= dl.push(r.last()));
        assert(r.to_multiset() =~= dl.to_multiset().insert(r.last()));
        assert(insert_ranked(r, x, d).to_multiset() =~= dl.to_multiset().insert(x).insert(
            r.last(),
        ));
        assert(dl.to_multiset().insert(x).insert(r.last()) =~= dl.to_multiset().insert(
            r.last(),
        ).insert(x));
    }
}

proof fn lemma_insert_ranked_sorted(r: Seq<ScoredCandidate>, x: ScoredCandidate, d: Direction)
    requires
        sorted_strict(r, d),
        all_pos_lt(r, x.source_index),
    ensures
        sorted_strict(insert_ranked(r, x, d), d),
    decreases r.len(),
{
    lemma_insert_ranked_len(r, x, d);
    if r.len() == 0 {
    } else if strictly_better(d, x.score as int, r.last().score as int) {
        let dl = r.drop_last();
        assert(sorted_strict(dl, d));
        lemma_insert_ranked_sorted(dl, x, d);
        lemma_insert_ranked_elems(dl, x, d);
        let v0 = insert_ranked(dl, x, d);
        let v = v0.push(r.last());
        assert forall|i: int, j: int| 0 <= i < j < v.len() implies entry_lt(d, v[i], v[j]) by {
            if j < v0.len() {
                assert(entry_lt(d, v0[i], v0[j]));
            } else {
                assert(v[j] == r.last());
                if v0[i] == x {
                } else {
                    let ii = choose|ii: int| 0 <= ii < dl.len() && dl[ii] == v0[i];
                    assert(r[ii] == dl[ii]);
                    assert(entry_lt(d, r[ii], r[r.len() - 1]));
                }
            }
        }
    } else {
        let v = r.push(x);
        assert forall|i: int, j: int| 0 <= i < j < v.len() implies entry_lt(d, v[i], v[j]) by {
            if j < r.len() {
                assert(entry_lt(d, r[i], r[j]));
            } else {
                assert(v[i] == r[i]);
                assert(v[j] == x);
                if i < r.len() - 1 {
                    assert(entry_lt(d, r[i], r[r.len() - 1]));
                } else {
                    assert(r[i] == r.last());
                }
            }
        }
    }
}

/// What the stable sort guarantees: the output has the same length
/// and the same candidates (as a multiset) as the input, and is
/// strictly ordered — better scores first, equal scores in source
/// order.
pub proof fn lemma_sort_ranked_ensures(s: Seq<ScoredCandidate>, d: Direction)
    requires
        pos_increasing(s),
    ensures
        sort_ranked(s, d).len() == s.len(),
        sort_ranked(s, d).to_multiset() == s.to_multiset(),
        sorted_strict(sort_ranked(s, d), d),
    decreases s.len(),
{
    broadcast use vstd::seq_lib::group_to_multiset_ensures;

    if s.len() > 0 {
        let dl = s.drop_last();
        let x = s.last();
        assert(pos_increasing(dl));
        lemma_sort_ranked_ensures(dl, d);
        let sd = sort_ranked(dl, d);
        assert forall|i: int| 0 <= i < sd.len() implies (#[trigger] sd[i]).source_index
            < x.source_index by {
            assert(sd.contains(sd[i]));
            assert(sd.to_multiset().count(sd[i]) > 0);
            assert(dl.contains(sd[i]));
            let ii = choose|ii: int| 0 <= ii < dl.len() && dl[ii] == sd[i];
            assert(s[ii] == dl[ii]);
            assert(s[s.len() - 1] == x);
        }
        lemma_insert_ranked_sorted(sd, x, d);
        lemma_insert_ranked_len(sd, x, d);
        lemma_insert_ranked_multiset(sd, x, d);
        assert(s =~= dl.push(x));
        assert(s.to_multiset() =~= dl.to_multiset().insert(x));
    }
}

/// Sorting never changes how many entries there are.
pub proof fn lemma_sort_ranked_len(s: Seq<ScoredCandidate>, d: Direction)
    ensures
        sort_ranked(s, d).len() == s.len(),
    decreases s.len(),
{
    if s.len() > 0 {
        lemma_sort_ranked_len(s.drop_last(), d);
        lemma_insert_ranked_len(sort_ranked(s.drop_last(), d), s.last(), d);
    }
}

/// Ranking returns the full candidate set: same cardinality, merely
/// reordered.
pub proof fn lemma_ranked_preserves_count(sc: Scorer, q: Seq<char>, cands: Seq<Candidate>)
    ensures
        ranked_candidates(sc, q, cands).len() == cands.len(),
{
    lemma_sort_ranked_len(scored_seq(sc, q, cands), sc.spec_direction());
}

/// The scored sequence built by `rank` carries strictly increasing
/// source positions, as the stability lemmas require.
pub proof fn lemma_scored_seq_pos_increasing(sc: Scorer, q: Seq<char>, cands: Seq<Candidate>)
    requires
        cands.len() <= usize::MAX,
    ensures
        pos_increasing(scored_seq(sc, q, cands)),
{
}

/// Ranking stability: whenever two entries of the ranked output
/// carry equal scores, they stand in the candidate source's original
/// order. Together with the multiset equality of
/// [`lemma_sort_ranked_ensures`], the output is the unique stable
/// reordering of the input, so re-running the sort on the same input
/// reproduces it exactly.
pub proof fn lemma_rank_stable(s: Seq<ScoredCandidate>, d: Direction, k1: int, k2: int)
    requires
        pos_increasing(s),
        0 <= k1 < k2 < sort_ranked(s, d).len(),
        sort_ranked(s, d)[k1].score == sort_ranked(s, d)[k2].score,
    ensures
        sort_ranked(s, d)[k1].source_index < sort_ranked(s, d)[k2].source_index,
{
    lemma_sort_ranked_ensures(s, d);
    let out = sort_ranked(s, d);
    assert(entry_lt(d, out[k1], out[k2]));
    assert(!strictly_better(d, out[k1].score as int, out[k2].score as int));
}

proof fn lemma_fields_best_in_range(sc: Scorer, q: Seq<char>, fields: Seq<Seq<char>>)
    ensures
        i64::MIN as int <= fields_best(sc, q, fields) <= i64::MAX as int,
    decreases fields.len(),
{
    if fields.len() > 0 {
        lemma_fields_best_in_range(sc, q, fields.drop_last());
        crate::score::lemma_score_spec_in_range(sc, q, fields.last());
    }
}

/// A candidate whose only field is `f` scores exactly `f`'s score.
pub proof fn lemma_fields_best_singleton(sc: Scorer, q: Seq<char>, f: Seq<char>)
    ensures
        fields_best(sc, q, seq![f]) == sc.score_spec(q, f),
{
    crate::score::lemma_score_spec_in_range(sc, q, f);
    assert(fields_best(sc, q, Seq::<Seq<char>>::empty()) == worst_score(sc.spec_direction()));
    assert(seq![f].drop_last() =~= Seq::<Seq<char>>::empty());
    assert(seq![f].last() == f);
}

/// Best-field selection: no field of a candidate scores strictly
/// better than the candidate's reduced score, and some field attains
/// it exactly — so a candidate matching well on any one field ranks
/// as if that were its only field, however poorly the others match.
pub proof fn lemma_best_field(sc: Scorer, q: Seq<char>, fields: Seq<Seq<char>>)
    requires
        fields.len() > 0,
    ensures
        forall|j: int|
            0 <= j < fields.len() ==> !strictly_better(
                sc.spec_direction(),
                sc.score_spec(q, #[trigger] fields[j]),
                fields_best(sc, q, fields),
            ),
        exists|j: int|
            0 <= j < fields.len() && fields_best(sc, q, fields) == fields_best(
                sc,
                q,
                seq![#[trigger] fields[j]],
            ),
    decreases fields.len(),
{
    let d = sc.spec_direction();
    let s_last = sc.score_spec(q, fields.last());
    crate::score::lemma_score_spec_in_range(sc, q, fields.last());
    lemma_fields_best_singleton(sc, q, fields.last());
    if fields.len() == 1 {
        assert(fields_best(sc, q, Seq::<Seq<char>>::empty()) == worst_score(d));
        assert(fields.drop_last() =~= Seq::<Seq<char>>::empty());
        assert(fields[0] == fields.last());
        assert(fields_best(sc, q, fields) == fields_best(sc, q, seq![fields[0]]));
    } else {
        let dl = fields.drop_last();
        lemma_best_field(sc, q, dl);
        lemma_fields_best_in_range(sc, q, dl);
        let best_dl = fields_best(sc, q, dl);
        if strictly_better(d, s_last, best_dl) {
            assert(fields_best(sc, q, fields) == s_last);
            let w = fields.len() - 1;
            assert(fields[w] == fields.last());
            assert(fields_best(sc, q, fields) == fields_best(sc, q, seq![fields[w]]));
            assert forall|j: int| 0 <= j < fields.len() implies !strictly_better(
                d,
                sc.score_spec(q, #[trigger] fields[j]),
                fields_best(sc, q, fields),
            ) by {
                if j < fields.len() - 1 {
                    assert(dl[j] == fields[j]);
                    assert(!strictly_better(d, sc.score_spec(q, dl[j]), best_dl));
                }
            }
        } else {
            assert(fields_best(sc, q, fields) == best_dl);
            let w0 = choose|j: int|
                0 <= j < dl.len() && best_dl == fields_best(sc, q, seq![#[trigger] dl[j]]);
            assert(fields[w0] == dl[w0]);
            assert(fields_best(sc, q, fields) == fields_best(sc, q, seq![fields[w0]]));
            assert forall|j: int| 0 <= j < fields.len() implies !strictly_better(
                d,
                sc.score_spec(q, #[trigger] fields[j]),
                fields_best(sc, q, fields),
            ) by {
                if j < fields.len() - 1 {
                    assert(dl[j] == fields[j]);
                    assert(!strictly_better(d, sc.score_spec(q, dl[j]), best_dl));
                }
            }
        }
    }
}

/// Runtime mirror of [`strictly_better`].
fn better_exec(d: Direction, a: i64, b: i64) -> (r: bool)
    ensures
        r == strictly_better(d, a as int, b as int),
{
    match d {
        Direction::HigherIsBetter => a > b,
        Direction::LowerIsBetter => a < b,
    }
}

/// Runtime mirror of [`worst_score`].
fn worst_exec(d: Direction) -> (r: i64)
    ensures
        r as int == worst_score(d),
{
    match d {
        Direction::HigherIsBetter => i64::MIN,
        Direction::LowerIsBetter => i64::MAX,
    }
}

/// Reduce a candidate's fields to its single ranking score: the best
/// field score, or the worst possible score if it has no fields.
pub fn score_candidate(scorer: Scorer, query: &SearchToken, c: &Candidate) -> (r: i64)
    ensures
        r as int == candidate_score(scorer, query@, *c),
{
    let d = scorer.direction();
    let mut best = worst_exec(d);
    let n = c.fields.len();
    let mut k: usize = 0;
    while k < n
        invariant
            k <= n,
            n == c.fields@.len(),
            d == scorer.spec_direction(),
            best as int == fields_best(scorer, query@, c.fields.deep_view().take(k as int)),
        decreases n - k,
    {
        let s = scorer.score(query, c.fields[k].as_str());
        proof {
            let fv = c.fields.deep_view();
            assert(fv.take(k + 1).drop_last() =~= fv.take(k as int));
            assert(fv.take(k + 1).last() == fv[k as int]);
        }
        if better_exec(d, s, best) {
            best = s;
        }
        k += 1;
    }
    proof {
        assert(c.fields.deep_view().take(n as int) =~= c.fields.deep_view());
    }
    best
}

/// Stable sort of already-scored candidates, in direction `d`. The
/// contract pins the output completely: it is the unique stable
/// reordering described by [`sort_ranked`].
pub fn rank_scored(entries: Vec<ScoredCandidate>, d: Direction) -> (r: Vec<ScoredCandidate>)
    ensures
        r@ == sort_ranked(entries@, d),
{
    let ghost orig = entries@;
    let mut rest = entries;
    let total: usize = rest.len();
    let mut out: Vec<ScoredCandidate> = Vec::new();
    let mut k: usize = 0;
    while rest.len() > 0
        invariant
            orig.len() == total,
            k + rest@.len() == orig.len(),
            rest@ =~= orig.skip(k as int),
            out@ == sort_ranked(orig.take(k as int), d),
        decreases rest@.len(),
    {
        proof {
            assert(orig.skip(k as int)[0] == orig[k as int]);
            assert(orig.skip(k as int).remove(0) =~= orig.skip(k as int + 1));
        }
        let x = rest.remove(0);
        let ghost before = out@;
        let mut j: usize = out.len();
        proof {
            assert(out@.take(out@.len() as int) =~= out@);
            assert(insert_ranked(out@, x, d) + out@.skip(out@.len() as int) =~= insert_ranked(
                out@,
                x,
                d,
            ));
        }
        while j > 0 && better_exec(d, x.score, out[j - 1].score)
            invariant
                j <= out@.len(),
                out@ == before,
                insert_ranked(out@, x, d) =~= insert_ranked(out@.take(j as int), x, d)
                    + out@.skip(j as int),
            decreases j,
        {
            proof {
                let t = out@.take(j as int);
                assert(t.drop_last() =~= out@.take(j - 1));
                assert(t.last() == out@[j - 1]);
                assert(insert_ranked(out@.take(j - 1), x, d).push(out@[j - 1]) + out@.skip(
                    j as int,
                ) =~= insert_ranked(out@.take(j - 1), x, d) + out@.skip(j - 1));
            }
            j -= 1;
        }
        proof {
            let t = out@.take(j as int);
            if j > 0 {
                assert(t.last() == out@[j - 1]);
            }
            assert(insert_ranked(t, x, d) =~= t.push(x));
            assert(t.push(x) + out@.skip(j as int) =~= out@.insert(j as int, x));
            assert(orig.take(k as int + 1).drop_last() =~= orig.take(k as int));
            assert(orig.take(k as int + 1).last() == orig[k as int]);
        }
        out.insert(j, x);
        k += 1;
    }
    proof {
        assert(orig.take(orig.len() as int) =~= orig);
    }
    out
}

/// Rank candidates against the query with the chosen strategy:
/// score every candidate by its best field, then sort stably in the
/// strategy's direction. The full candidate set comes back, merely
/// reordered.
pub fn rank(candidates: Vec<Candidate>, query: &SearchToken, scorer: Scorer) -> (r: Vec<Candidate>)
    ensures
        r@ == ranked_candidates(scorer, query@, candidates@),
{
    let ghost orig = candidates@;
    let d = scorer.direction();
    let mut rest = candidates;
    let total: usize = rest.len();
    let mut entries: Vec<ScoredCandidate> = Vec::new();
    let mut k: usize = 0;
    while rest.len() > 0
        invariant
            d == scorer.spec_direction(),
            orig.len() == total,
            k + rest@.len() == orig.len(),
            rest@ =~= orig.skip(k as int),
            entries@ =~= scored_seq(scorer, query@, orig).take(k as int),
        decreases rest@.len(),
    {
        proof {
            assert(orig.skip(k as int)[0] == orig[k as int]);
            assert(orig.skip(k as int).remove(0) =~= orig.skip(k as int + 1));
        }
        let c = rest.remove(0);
        let s = score_candidate(scorer, query, &c);
        entries.push(ScoredCandidate { candidate: c, score: s, source_index: k });
        proof {
            assert(entries@ =~= scored_seq(scorer, query@, orig).take(k as int + 1));
        }
        k += 1;
    }
    proof {
        assert(scored_seq(scorer, query@, orig).take(orig.len() as int) =~= scored_seq(
            scorer,
            query@,
            orig,
        ));
    }
    let sorted = rank_scored(entries, d);
    let ghost sorted_view = sorted@;
    let mut rest2 = sorted;
    let total2: usize = rest2.len();
    let mut out: Vec<Candidate> = Vec::new();
    let mut k2: usize = 0;
    while rest2.len() > 0
        invariant
            sorted_view.len() == total2,
            k2 + rest2@.len() == sorted_view.len(),
            rest2@ =~= sorted_view.skip(k2 as int),
            out@ =~= sorted_view.map_values(|e: ScoredCandidate| e.candidate).take(k2 as int),
        decreases rest2@.len(),
    {
        proof {
            assert(sorted_view.skip(k2 as int)[0] == sorted_view[k2 as int]);
            assert(sorted_view.skip(k2 as int).remove(0) =~= sorted_view.skip(k2 as int + 1));
        }
        let e = rest2.remove(0);
        out.push(e.candidate);
        k2 += 1;
    }
    proof {
        let mapped = sorted_view.map_values(|e: ScoredCandidate| e.candidate);
        assert(mapped.take(mapped.len() as int) =~= mapped);
    }
    out
}

} // verus!
