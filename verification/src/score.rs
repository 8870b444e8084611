//! Match scorer: rates how well a query string matches a candidate path.
//!
//! A candidate matches when the query's characters occur in order within it,
//! compared exactly if the query holds an ASCII upper-case letter and
//! ignoring ASCII case otherwise. The integer score of a match comes from the
//! fuzzy matcher and is named, not spelled out: it is a fixed function of the
//! two strings alone.

use vstd::prelude::*;

verus! {

/// True when `c` is an ASCII upper-case letter.
pub open spec fn is_ascii_upper(c: char) -> bool {
    'A' <= c && c <= 'Z'
}

/// True when `c` is an ASCII lower-case letter.
pub open spec fn is_ascii_lower(c: char) -> bool {
    'a' <= c && c <= 'z'
}

/// Character equality as the matcher applies it: exact when matching
/// case-sensitively, and otherwise also equating an ASCII letter with its
/// other-case form (their code points differ by 32).
pub open spec fn chars_match(c: char, q: char, case_sensitive: bool) -> bool {
    ||| c == q
    ||| (!case_sensitive && is_ascii_upper(c) && is_ascii_lower(q) && c as int + 32 == q as int)
    ||| (!case_sensitive && is_ascii_lower(c) && is_ascii_upper(q) && c as int == q as int + 32)
}

/// True when some character of `q` is an ASCII upper-case letter; such a
/// query is matched case-sensitively ("smart case").
pub open spec fn has_ascii_upper(q: Seq<char>) -> bool {
    exists|i: int| 0 <= i < q.len() && is_ascii_upper(q[i])
}

/// The characters of `q` occur, in order, within `c`, under `chars_match`.
/// Written as the greedy scan: a candidate character that matches the next
/// query character always consumes it, which succeeds exactly when any
/// in-order embedding exists.
pub open spec fn subseq_matches(c: Seq<char>, q: Seq<char>, case_sensitive: bool) -> bool
    decreases c.len() + q.len(),
{
    if q.len() == 0 {
        true
    } else if c.len() == 0 {
        false
    } else if chars_match(c[0], q[0], case_sensitive) {
        subseq_matches(c.skip(1), q.skip(1), case_sensitive)
    } else {
        subseq_matches(c.skip(1), q, case_sensitive)
    }
}

/// The matching rule of the scorer: the query is found as a subsequence of
/// the candidate, case-sensitively exactly when the query holds an ASCII
/// upper-case letter. An empty query matches every candidate.
pub open spec fn query_matches(c: Seq<char>, q: Seq<char>) -> bool {
    subseq_matches(c, q, has_ascii_upper(q))
}

/// The score that the fuzzy matcher assigns to a candidate and a query: a
/// fixed function of the two strings alone, `Some` exactly on matches.
pub uninterp spec fn skim_score(c: Seq<char>, q: Seq<char>) -> Option<i64>;

/// Relies on `fuzzy_matcher::skim::SkimMatcherV2::fuzzy_match` with the
/// default configuration: the result is a function of the two strings alone;
/// it is `Some` exactly when the query's characters occur in order in the
/// candidate (ignoring ASCII case unless the query holds an ASCII upper-case
/// letter), and an empty query scores 0.
#[verifier::external_body]
fn skim_match(candidate: &str, query: &str) -> (r: Option<i64>)
    ensures
        r == skim_score(candidate@, query@),
        r is Some <==> query_matches(candidate@, query@),
        query@.len() == 0 ==> r == Some(0i64),
{
    let matcher = fuzzy_matcher::skim::SkimMatcherV2::default();
    fuzzy_matcher::FuzzyMatcher::fuzzy_match(&matcher, candidate, query)
}

/// Integer compatibility score of `query` against `candidate`: `None` when
/// the query cannot be found as a subsequence of the candidate, and otherwise
/// the matcher's score, where higher means a better match. Two calls with
/// identical inputs return identical scores, and an empty query matches
/// every candidate.
pub fn score(candidate: &str, query: &str) -> (r: Option<i64>)
    ensures
        r == skim_score(candidate@, query@),
        r is Some <==> query_matches(candidate@, query@),
        query@.len() == 0 ==> r is Some,
{
    let r = skim_match(candidate, query);
    proof {
        if query@.len() == 0 {
            assert(query_matches(candidate@, query@));
        }
    }
    r
}

} // verus!
