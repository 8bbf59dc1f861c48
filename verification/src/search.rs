//! The search pipeline over already-fetched candidate rows, and the
//! coarse filter query handed to the candidate source.
//!
//! Fetching itself is the candidate source's business (network I/O,
//! timeouts, retries); the core receives either the fetched rows or
//! the news that the fetch failed, and performs the only parts with
//! rules worth stating: identifier decoding, scoring and ranking.
//! Validation happens before any query is built; decode failures
//! abort the whole operation — no partial result set is ever
//! returned.

use vstd::prelude::*;

use crate::codec::{canonical_text, decode, key_text, text_value, valid_ulid_text, Identifier,
    StoreValue};
use crate::errors::SearchError;
use crate::rank::{rank, ranked_candidates, Candidate};
use crate::score::Scorer;
use crate::token::SearchToken;

verus! {

/// A candidate row exactly as the store returned it: the identifier
/// still in store shape, plus the entity kind's searchable fields.
#[derive(Debug)]
pub struct RawCandidate {
    pub id: StoreValue,
    pub fields: Vec<String>,
}

/// Every row's identifier text is well-formed.
pub open spec fn all_ids_valid(rows: Seq<RawCandidate>) -> bool {
    forall|i: int| 0 <= i < rows.len() ==> valid_ulid_text(key_text((#[trigger] rows[i]).id))
}

/// The candidate a row decodes to (meaningful when its identifier is
/// well-formed).
pub open spec fn decoded_candidate(r: RawCandidate) -> Candidate {
    Candidate { id: Identifier { bits: text_value(key_text(r.id)) as u128 }, fields: r.fields }
}

/// All rows, decoded.
pub open spec fn decoded_candidates(rows: Seq<RawCandidate>) -> Seq<Candidate> {
    rows.map_values(|r: RawCandidate| decoded_candidate(r))
}

/// Decode every row's identifier, aborting on the first malformed
/// one: succeeds if and only if every identifier is well-formed, and
/// then yields exactly the decoded candidates in source order.
#[verifier::loop_isolation(false)]
pub fn decode_rows(rows: Vec<RawCandidate>) -> (r: Result<Vec<Candidate>, SearchError>)
    ensures
        r is Ok <==> all_ids_valid(rows@),
        r matches Ok(cands) ==> cands@ == decoded_candidates(rows@),
        r matches Err(e) ==> e == SearchError::MalformedIdentifier,
{
    let ghost orig = rows@;
    let mut rest = rows;
    let total: usize = rest.len();
    let mut cands: Vec<Candidate> = Vec::new();
    let mut k: usize = 0;
    while rest.len() > 0
        invariant
            orig.len() == total,
            k + rest@.len() == orig.len(),
            rest@ =~= orig.skip(k as int),
            cands@ =~= decoded_candidates(orig).take(k as int),
            forall|j: int| 0 <= j < k ==> valid_ulid_text(key_text((#[trigger] orig[j]).id)),
        decreases rest@.len(),
    {
        proof {
            assert(orig.skip(k as int)[0] == orig[k as int]);
            assert(orig.skip(k as int).remove(0) =~= orig.skip(k as int + 1));
        }
        let row = rest.remove(0);
        let id = match decode(&row.id) {
            Ok(id) => id,
            Err(e) => {
                proof {
                    assert(!valid_ulid_text(key_text((orig[k as int]).id)));
                    assert(!all_ids_valid(orig));
                }
                return Err(e);
            },
        };
        cands.push(Candidate { id, fields: row.fields });
        proof {
            assert(cands@ =~= decoded_candidates(orig).take(k as int + 1));
        }
        k += 1;
    }
    proof {
        assert(decoded_candidates(orig).take(orig.len() as int) =~= decoded_candidates(orig));
    }
    Ok(cands)
}

/// Run one search over the candidate source's response. `fetched` is
/// `None` when the fetch itself failed. Exactly one of three things
/// happens: the fetch failure surfaces as `SourceUnavailable`; some
/// row's identifier is malformed and the whole operation aborts with
/// `MalformedIdentifier`; or every row decodes and the full decoded
/// candidate set comes back in ranked order.
pub fn run_search(fetched: Option<Vec<RawCandidate>>, query: &SearchToken, scorer: Scorer) -> (r:
    Result<Vec<Candidate>, SearchError>)
    ensures
        fetched is None ==> r == Err::<Vec<Candidate>, SearchError>(
            SearchError::SourceUnavailable,
        ),
        fetched matches Some(rows) ==> {
            &&& (r is Ok <==> all_ids_valid(rows@))
            &&& (r matches Ok(out) ==> out@ == ranked_candidates(
                scorer,
                query@,
                decoded_candidates(rows@),
            ))
            &&& (!all_ids_valid(rows@) ==> r == Err::<Vec<Candidate>, SearchError>(
                SearchError::MalformedIdentifier,
            ))
        },
{
    let rows = match fetched {
        None => {
            return Err(SearchError::SourceUnavailable);
        },
        Some(rows) => rows,
    };
    let cands = match decode_rows(rows) {
        Ok(cands) => cands,
        Err(e) => {
            return Err(e);
        },
    };
    Ok(rank(cands, query, scorer))
}

/// A user's display name, as the user entity stores it. Its two
/// parts are separate searchable fields; the joined form is what the
/// store query matches against.
#[derive(Debug)]
pub struct Name {
    pub first: String,
    pub last: String,
}

impl Name {
    /// The joined `first last` form.
    pub fn full(&self) -> (r: String)
        ensures
            r@ == self.first@ + " "@ + self.last@,
    {
        let mut s = self.first.clone();
        s.append(" ");
        s.append(self.last.as_str());
        s
    }
}

/// One filter clause: `field ~ 'token'`.
pub open spec fn filter_clause(field: Seq<char>, q: Seq<char>) -> Seq<char> {
    field + " ~ '"@ + q + "'"@
}

/// The filter clauses of all fields, joined with ` OR `.
pub open spec fn filter_clauses(fields: Seq<Seq<char>>, q: Seq<char>) -> Seq<char>
    decreases fields.len(),
{
    if fields.len() == 0 {
        Seq::empty()
    } else if fields.len() == 1 {
        filter_clause(fields[0], q)
    } else {
        filter_clauses(fields.drop_last(), q) + " OR "@ + filter_clause(fields.last(), q)
    }
}

/// The coarse filter query handed to the candidate source.
pub open spec fn search_query_text(table: Seq<char>, fields: Seq<Seq<char>>, q: Seq<char>) -> Seq<
    char,
> {
    "SELECT * FROM "@ + table + " WHERE "@ + filter_clauses(fields, q)
}

/// Build the coarse filter query for a table and its searchable
/// fields. The only untrusted text interpolated is the validated
/// token; table and field names are the adapter's own constants.
pub fn search_query(table: &str, fields: &Vec<String>, token: &SearchToken) -> (r: String)
    requires
        fields@.len() > 0,
    ensures
        r@ == search_query_text(table@, fields.deep_view(), token@),
{
    let mut s = String::from_str("SELECT * FROM ");
    s.append(table);
    s.append(" WHERE ");
    let ghost prefix = "SELECT * FROM "@ + table@ + " WHERE "@;
    let n = fields.len();
    let mut k: usize = 0;
    while k < n
        invariant
            0 < n == fields@.len(),
            k <= n,
            s@ == prefix + filter_clauses(fields.deep_view().take(k as int), token@),
        decreases n - k,
    {
        if k > 0 {
            s.append(" OR ");
        }
        s.append(fields[k].as_str());
        s.append(" ~ '");
        s.append(token.as_str());
        s.append("'");
        proof {
            let fv = fields.deep_view();
            assert(fv.take(k + 1).drop_last() =~= fv.take(k as int));
            assert(fv.take(k + 1).last() == fv[k as int]);
            if k == 0 {
                assert(fv.take(0) =~= Seq::<Seq<char>>::empty());
                assert(filter_clauses(fv.take(0), token@) =~= Seq::<char>::empty());
                assert(s@ =~= prefix + filter_clauses(fv.take(1), token@));
            } else {
                assert(s@ =~= prefix + filter_clauses(fv.take(k + 1), token@));
            }
        }
        k += 1;
    }
    proof {
        assert(fields.deep_view().take(n as int) =~= fields.deep_view());
    }
    s
}

/// Build the query that fetches one record by its identifier. The
/// interpolated text is the canonical encoding of the identifier,
/// which by construction contains only digits and upper-case
/// letters.
pub fn record_query(table: &str, id: &Identifier) -> (r: String)
    ensures
        r@ == "SELECT * FROM ONLY "@ + table@ + ":`"@ + canonical_text(id@) + "`"@,
{
    let mut s = String::from_str("SELECT * FROM ONLY ");
    s.append(table);
    s.append(":`");
    let enc = id.encode();
    s.append(enc.as_str());
    s.append("`");
    s
}

} // verus!
