//! Top-K selector: scans the full candidate sequence on every query change
//! and keeps the K highest-scoring matches, best first.
//!
//! The selector holds a bounded, preference-sorted buffer of at most K
//! entries. A candidate that does not match is skipped; while the buffer has
//! room a match is inserted at its place; once the buffer is full a match
//! replaces the least-preferred entry only when its score is strictly
//! greater, so on equal scores the candidate seen earlier in the input
//! sequence wins.

use vstd::prelude::*;

use crate::score::query_matches;
use crate::score::score;
use crate::score::skim_score;

verus! {

/// Number of results the interactive front ends show.
pub const TOP_K: usize = 10;

/// A candidate's place in the scanned sequence paired with its score for the
/// current query. Exists only within one ranking pass.
#[derive(Clone, Copy, Debug)]
pub struct ScoredCandidate {
    pub score: i64,
    pub index: usize,
}

/// The character sequences of the candidate strings.
pub open spec fn cand_views(cs: Seq<String>) -> Seq<Seq<char>> {
    cs.map_values(|c: String| c@)
}

/// Whether candidate `i` matches query `q`.
pub open spec fn is_matched(cs: Seq<Seq<char>>, q: Seq<char>, i: int) -> bool {
    query_matches(cs[i], q)
}

/// Number of matching candidates among the first `n`.
pub open spec fn num_matched(cs: Seq<Seq<char>>, q: Seq<char>, n: int) -> int
    decreases n,
{
    if n <= 0 {
        0
    } else {
        num_matched(cs, q, n - 1) + if is_matched(cs, q, n - 1) {
            1int
        } else {
            0int
        }
    }
}

/// The smaller of two integers.
pub open spec fn min_int(a: int, b: int) -> int {
    if a <= b {
        a
    } else {
        b
    }
}

/// Strict preference among scored entries: higher score first; on equal
/// scores the candidate seen earlier in the input sequence wins.
pub open spec fn entry_prefers(x: ScoredCandidate, y: ScoredCandidate) -> bool {
    x.score > y.score || (x.score == y.score && x.index < y.index)
}

/// Entry `x` is preferred over candidate `i`, whose score is `s`.
pub open spec fn entry_beats(x: ScoredCandidate, s: i64, i: int) -> bool {
    x.score > s || (x.score == s && x.index < i)
}

/// Candidate index `i` appears among the entries.
pub open spec fn in_entries(e: Seq<ScoredCandidate>, i: int) -> bool {
    exists|a: int| 0 <= a < e.len() && e[a].index == i
}

/// Entry `x` is well formed for the prefix of the first `n` candidates: its
/// index lies in the prefix, that candidate matches, and the stored score is
/// the matcher's.
pub open spec fn entry_valid(cs: Seq<Seq<char>>, q: Seq<char>, n: int, x: ScoredCandidate) -> bool {
    &&& x.index < n
    &&& is_matched(cs, q, x.index as int)
    &&& skim_score(cs[x.index as int], q) == Some(x.score)
}

/// The entries stand in strictly descending preference order.
pub open spec fn entries_sorted(e: Seq<ScoredCandidate>) -> bool {
    forall|a: int, b: int| 0 <= a < b < e.len() ==> entry_prefers(#[trigger] e[a], #[trigger] e[b])
}

/// The buffer holds exactly the best `min(k, matched)` matching candidates
/// of the first `n`, in strictly descending preference order: every matching
/// candidate left out is beaten by every entry kept, and while the buffer is
/// not full no matching candidate is left out.
pub open spec fn is_selection(
    cs: Seq<Seq<char>>,
    q: Seq<char>,
    k: int,
    n: int,
    e: Seq<ScoredCandidate>,
) -> bool {
    &&& e.len() == min_int(k, num_matched(cs, q, n))
    &&& forall|a: int| 0 <= a < e.len() ==> entry_valid(cs, q, n, #[trigger] e[a])
    &&& entries_sorted(e)
    &&& forall|i: int|
        0 <= i < n && #[trigger] is_matched(cs, q, i) && !in_entries(e, i) ==> forall|a: int|
            0 <= a < e.len() ==> entry_beats(#[trigger] e[a], skim_score(cs[i], q)->0, i)
    &&& e.len() < k ==> forall|i: int|
        0 <= i < n && #[trigger] is_matched(cs, q, i) ==> in_entries(e, i)
}

/// The ranked result for query `q` over the whole candidate sequence.
pub open spec fn is_ranking(cs: Seq<Seq<char>>, q: Seq<char>, k: int, e: Seq<ScoredCandidate>) -> bool {
    is_selection(cs, q, k, cs.len() as int, e)
}

proof fn lemma_num_matched_bounds(cs: Seq<Seq<char>>, q: Seq<char>, n: int)
    requires
        n >= 0,
    ensures
        0 <= num_matched(cs, q, n) <= n,
    decreases n,
{
    if n > 0 {
        lemma_num_matched_bounds(cs, q, n - 1);
    }
}

/// Insert a scored entry into a preference-sorted buffer whose entries all
/// come earlier in the input sequence, keeping the order.
fn insert_entry(entries: &mut Vec<ScoredCandidate>, x: ScoredCandidate) -> (p: usize)
    requires
        entries_sorted(old(entries)@),
        forall|a: int|
            0 <= a < old(entries)@.len() ==> (#[trigger] old(entries)@[a]).index < x.index,
    ensures
        p <= old(entries)@.len(),
        final(entries)@ == old(entries)@.insert(p as int, x),
        entries_sorted(final(entries)@),
{
    let ghost e0 = entries@;
    let mut p: usize = 0;
    while p < entries.len() && entries[p].score >= x.score
        invariant
            p <= entries@.len(),
            entries@ == e0,
            forall|a: int| 0 <= a < p ==> (#[trigger] entries@[a]).score >= x.score,
        decreases entries@.len() - p,
    {
        p += 1;
    }
    assert(p < e0.len() ==> e0[p as int].score < x.score);
    entries.insert(p, x);
    proof {
        let e1 = entries@;
        assert(e1 == e0.insert(p as int, x));
        assert forall|a: int, b: int| 0 <= a < b < e1.len() implies entry_prefers(e1[a], e1[b]) by {
            if a < p && b < p {
                assert(e1[a] == e0[a] && e1[b] == e0[b]);
            } else if a < p && b == p {
                assert(e1[a] == e0[a] && e1[b] == x);
            } else if a < p && b > p {
                assert(e1[a] == e0[a] && e1[b] == e0[b - 1]);
            } else if a == p && b > p {
                assert(e1[a] == x && e1[b] == e0[b - 1]);
                if b - 1 > p {
                    assert(entry_prefers(e0[p as int], e0[b - 1]));
                }
            } else {
                assert(e1[a] == e0[a - 1] && e1[b] == e0[b - 1]);
            }
        }
    }
    p
}

/// Membership among the entries survives an insertion.
proof fn lemma_insert_keeps_membership(e: Seq<ScoredCandidate>, p: int, x: ScoredCandidate, j: int)
    requires
        0 <= p <= e.len(),
        in_entries(e, j),
    ensures
        in_entries(e.insert(p, x), j),
{
    let a = choose|a: int| 0 <= a < e.len() && e[a].index == j;
    e.insert_ensures(p, x);
    if a < p {
        assert(e.insert(p, x)[a] == e[a]);
    } else {
        assert(e.insert(p, x)[a + 1] == e[a]);
    }
}

/// Scan the candidates in order and keep the `k` best-scoring matches as
/// scored entries, best first. The returned buffer is the unique ranking of
/// the candidates for this query.
pub fn rank_entries(candidates: &Vec<String>, query: &str, k: usize) -> (r: Vec<ScoredCandidate>)
    ensures
        is_ranking(cand_views(candidates@), query@, k as int, r@),
{
    let ghost cs = cand_views(candidates@);
    let ghost q = query@;
    let mut entries: Vec<ScoredCandidate> = Vec::new();
    let mut i: usize = 0;
    while i < candidates.len()
        invariant
            i <= candidates.len(),
            cs == cand_views(candidates@),
            q == query@,
            cs.len() == candidates@.len(),
            is_selection(cs, q, k as int, i as int, entries@),
        decreases candidates.len() - i,
    {
        let ghost e0 = entries@;
        let ghost n = i as int;
        proof {
            assert(cs[n] == candidates@[n]@);
            assert(num_matched(cs, q, n + 1) == num_matched(cs, q, n) + if is_matched(cs, q, n) {
                1int
            } else {
                0int
            });
            lemma_num_matched_bounds(cs, q, n);
        }
        let s_opt = score(candidates[i].as_str(), query);
        match s_opt {
            None => {
                proof {
                    assert(!is_matched(cs, q, n));
                    assert forall|j: int|
                        0 <= j < n + 1 && #[trigger] is_matched(cs, q, j) && !in_entries(e0, j)
                        implies forall|a: int|
                            0 <= a < e0.len() ==> entry_beats(
                                #[trigger] e0[a],
                                skim_score(cs[j], q)->0,
                                j,
                            ) by {
                        assert(j < n);
                    }
                    assert(is_selection(cs, q, k as int, n + 1, entries@));
                }
            },
            Some(s) => {
                let x = ScoredCandidate { score: s, index: i };
                proof {
                    assert(is_matched(cs, q, n));
                    assert(skim_score(cs[n], q) == Some(s));
                    assert(entry_valid(cs, q, n + 1, x));
                    assert forall|a: int| 0 <= a < e0.len() implies (#[trigger] e0[a]).index
                        < x.index by {
                        assert(entry_valid(cs, q, n, e0[a]));
                    }
                }
                if entries.len() < k {
                    // The buffer has room: no match has ever been left out.
                    let p = insert_entry(&mut entries, x);
                    proof {
                        let e1 = entries@;
                        assert(e0.len() == num_matched(cs, q, n));
                        e0.insert_ensures(p as int, x);
                        assert(e1[p as int] == x);
                        assert(in_entries(e1, n));
                        assert forall|j: int|
                            0 <= j < n + 1 && #[trigger] is_matched(cs, q, j) implies in_entries(
                            e1,
                            j,
                        ) by {
                            if j < n {
                                assert(in_entries(e0, j));
                                lemma_insert_keeps_membership(e0, p as int, x, j);
                            }
                        }
                        assert forall|a: int| 0 <= a < e1.len() implies entry_valid(
                            cs,
                            q,
                            n + 1,
                            #[trigger] e1[a],
                        ) by {
                            if a < p {
                                assert(e1[a] == e0[a]);
                            } else if a == p {
                                assert(e1[a] == x);
                            } else {
                                assert(e1[a] == e0[a - 1]);
                            }
                        }
                        assert(is_selection(cs, q, k as int, n + 1, entries@));
                    }
                } else if k > 0 && entries[k - 1].score < x.score {
                    // Full buffer, strictly better than the least-preferred
                    // entry: that entry leaves, the newcomer takes its place.
                    let ghost evicted = e0.last();
                    entries.pop();
                    let p = insert_entry(&mut entries, x);
                    proof {
                        let ed = e0.drop_last();
                        let e1 = entries@;
                        assert(e1 == ed.insert(p as int, x));
                        ed.insert_ensures(p as int, x);
                        assert(e1[p as int] == x);
                        assert(in_entries(e1, n));
                        assert(num_matched(cs, q, n) >= k);
                        // Every entry of the new buffer is valid for the longer prefix.
                        assert forall|a: int| 0 <= a < e1.len() implies entry_valid(
                            cs,
                            q,
                            n + 1,
                            #[trigger] e1[a],
                        ) by {
                            if a < p {
                                assert(e1[a] == ed[a] && ed[a] == e0[a]);
                            } else if a == p {
                                assert(e1[a] == x);
                            } else {
                                assert(e1[a] == ed[a - 1] && ed[a - 1] == e0[a - 1]);
                            }
                        }
                        // Every matching candidate now left out is beaten by
                        // every entry kept.
                        assert forall|j: int|
                            0 <= j < n + 1 && #[trigger] is_matched(cs, q, j) && !in_entries(e1, j)
                            implies forall|a: int|
                                0 <= a < e1.len() ==> entry_beats(
                                    #[trigger] e1[a],
                                    skim_score(cs[j], q)->0,
                                    j,
                                ) by {
                            let sj = skim_score(cs[j], q)->0;
                            assert(j != n);
                            if in_entries(e0, j) {
                                let aj = choose|aj: int|
                                    0 <= aj < e0.len() && e0[aj].index == j;
                                if aj < e0.len() - 1 {
                                    assert(ed[aj] == e0[aj]);
                                    assert(in_entries(ed, j));
                                    lemma_insert_keeps_membership(ed, p as int, x, j);
                                    assert(false);
                                } else {
                                    // `j` is the evicted entry's candidate.
                                    assert(e0[aj] == evicted);
                                    assert(entry_valid(cs, q, n, evicted));
                                    assert(sj == evicted.score);
                                    assert forall|a: int| 0 <= a < e1.len() implies entry_beats(
                                        #[trigger] e1[a],
                                        sj,
                                        j,
                                    ) by {
                                        if a < p {
                                            assert(e1[a] == e0[a]);
                                            assert(entry_prefers(e0[a], evicted));
                                        } else if a == p {
                                            assert(e1[a] == x);
                                        } else {
                                            assert(e1[a] == e0[a - 1]);
                                            if a - 1 < e0.len() - 1 {
                                                assert(entry_prefers(e0[a - 1], evicted));
                                            }
                                        }
                                    }
                                }
                            } else {
                                // `j` was already left out of the full buffer,
                                // so even the least-preferred old entry beat it.
                                assert(forall|a: int|
                                    0 <= a < e0.len() ==> entry_beats(
                                        #[trigger] e0[a],
                                        sj,
                                        j,
                                    ));
                                assert(entry_beats(e0[e0.len() - 1], sj, j));
                                assert(x.score > sj);
                                assert forall|a: int| 0 <= a < e1.len() implies entry_beats(
                                    #[trigger] e1[a],
                                    sj,
                                    j,
                                ) by {
                                    if a < p {
                                        assert(e1[a] == e0[a]);
                                    } else if a == p {
                                        assert(e1[a] == x);
                                    } else {
                                        assert(e1[a] == e0[a - 1]);
                                    }
                                }
                            }
                        }
                        assert(is_selection(cs, q, k as int, n + 1, entries@));
                    }
                } else {
                    // Full buffer and no strictly greater score: the newcomer
                    // is discarded, so on equal scores the earlier candidate
                    // stays.
                    proof {
                        assert(e0.len() == k);
                        assert(num_matched(cs, q, n) >= k);
                        assert forall|j: int|
                            0 <= j < n + 1 && #[trigger] is_matched(cs, q, j) && !in_entries(e0, j)
                            implies forall|a: int|
                                0 <= a < e0.len() ==> entry_beats(
                                    #[trigger] e0[a],
                                    skim_score(cs[j], q)->0,
                                    j,
                                ) by {
                            if j == n {
                                assert forall|a: int| 0 <= a < e0.len() implies entry_beats(
                                    #[trigger] e0[a],
                                    skim_score(cs[j], q)->0,
                                    j,
                                ) by {
                                    assert(entry_valid(cs, q, n, e0[a]));
                                    if a < e0.len() - 1 {
                                        assert(entry_prefers(e0[a], e0[e0.len() - 1]));
                                    }
                                    assert(e0[a].score >= e0[e0.len() - 1].score);
                                    assert(e0[e0.len() - 1].score >= x.score);
                                    assert(skim_score(cs[j], q)->0 == s);
                                }
                            }
                        }
                        assert(is_selection(cs, q, k as int, n + 1, entries@));
                    }
                }
            },
        }
        i += 1;
    }
    entries
}

/// An empty query matches every candidate, so every candidate counts.
pub proof fn lemma_empty_query_matches_all(cs: Seq<Seq<char>>, q: Seq<char>, n: int)
    requires
        q.len() == 0,
        n >= 0,
    ensures
        num_matched(cs, q, n) == n,
    decreases n,
{
    if n > 0 {
        lemma_empty_query_matches_all(cs, q, n - 1);
        assert(is_matched(cs, q, n - 1));
    }
}

/// `r` is a ranked result for the candidates and query: some ranking `e`
/// gives its length and, position by position, the candidate each returned
/// string is.
pub open spec fn top_k_post(cs: Seq<String>, q: Seq<char>, k: int, r: Seq<String>) -> bool {
    exists|e: Seq<ScoredCandidate>|
        #[trigger] is_ranking(cand_views(cs), q, k, e) && r.len() == e.len() && forall|a: int|
            0 <= a < e.len() ==> r[a] == cs[(#[trigger] e[a]).index as int]
}

/// The `k` best-matching candidates for `query`, in descending score order,
/// ties broken in favour of the candidate seen earlier. Recomputed from the
/// full candidate sequence on every call; candidates that do not match are
/// never returned, and an empty query returns the first `min(k, len)`
/// candidates.
pub fn select_top_k(candidates: &Vec<String>, query: &str, k: usize) -> (r: Vec<String>)
    ensures
        top_k_post(candidates@, query@, k as int, r@),
        r@.len() == min_int(
            k as int,
            num_matched(cand_views(candidates@), query@, candidates@.len() as int),
        ),
        r@.len() <= k,
        forall|a: int| 0 <= a < r@.len() ==> query_matches((#[trigger] r@[a])@, query@),
        forall|a: int, b: int|
            0 <= a < b < r@.len() ==> skim_score(r@[a]@, query@)->0 >= skim_score(
                r@[b]@,
                query@,
            )->0,
        query@.len() == 0 ==> r@.len() == min_int(k as int, candidates@.len() as int),
{
    let ghost cs = cand_views(candidates@);
    let ghost q = query@;
    let entries = rank_entries(candidates, query, k);
    let mut out: Vec<String> = Vec::new();
    let mut j: usize = 0;
    while j < entries.len()
        invariant
            j <= entries@.len(),
            cs == cand_views(candidates@),
            q == query@,
            cs.len() == candidates@.len(),
            is_ranking(cs, q, k as int, entries@),
            out@.len() == j,
            forall|a: int|
                0 <= a < j ==> out@[a] == candidates@[(#[trigger] entries@[a]).index as int],
        decreases entries@.len() - j,
    {
        proof {
            assert(entry_valid(cs, q, cs.len() as int, entries@[j as int]));
        }
        let idx = entries[j].index;
        out.push(candidates[idx].clone());
        j += 1;
    }
    proof {
        let e = entries@;
        lemma_num_matched_bounds(cs, q, cs.len() as int);
        assert forall|a: int| 0 <= a < out@.len() implies query_matches(
            (#[trigger] out@[a])@,
            q,
        ) by {
            assert(entry_valid(cs, q, cs.len() as int, e[a]));
            assert(out@[a]@ == cs[e[a].index as int]);
        }
        assert forall|a: int, b: int| 0 <= a < b < out@.len() implies skim_score(out@[a]@, q)->0
            >= skim_score(out@[b]@, q)->0 by {
            assert(entry_valid(cs, q, cs.len() as int, e[a]));
            assert(entry_valid(cs, q, cs.len() as int, e[b]));
            assert(entry_prefers(e[a], e[b]));
            assert(out@[a]@ == cs[e[a].index as int]);
            assert(out@[b]@ == cs[e[b].index as int]);
        }
        if q.len() == 0 {
            lemma_empty_query_matches_all(cs, q, cs.len() as int);
        }
        assert(top_k_post(candidates@, q, k as int, out@));
    }
    out
}

/// Fuzzy match the user input against the candidate list and return the
/// best matches, at most `TOP_K` of them, with the highest score first.
pub fn fuzzy(dir_list: Vec<String>, input: String) -> (r: Vec<String>)
    ensures
        top_k_post(dir_list@, input@, TOP_K as int, r@),
        r@.len() <= TOP_K,
        forall|a: int| 0 <= a < r@.len() ==> query_matches((#[trigger] r@[a])@, input@),
        forall|a: int, b: int|
            0 <= a < b < r@.len() ==> skim_score(r@[a]@, input@)->0 >= skim_score(
                r@[b]@,
                input@,
            )->0,
{
    select_top_k(&dir_list, input.as_str(), TOP_K)
}

/// Top-k completeness: a matching candidate whose string was left out of
/// the ranked result never scores higher than any candidate returned.
pub proof fn lemma_no_better_candidate_left_out(
    cs: Seq<String>,
    q: Seq<char>,
    k: int,
    r: Seq<String>,
    i: int,
    a: int,
)
    requires
        top_k_post(cs, q, k, r),
        0 <= i < cs.len(),
        query_matches(cs[i]@, q),
        forall|b: int| 0 <= b < r.len() ==> r[b] != cs[i],
        0 <= a < r.len(),
    ensures
        skim_score(cs[i]@, q)->0 <= skim_score(r[a]@, q)->0,
{
    let cv = cand_views(cs);
    let e = choose|e: Seq<ScoredCandidate>|
        #[trigger] is_ranking(cv, q, k, e) && r.len() == e.len() && forall|b: int|
            0 <= b < e.len() ==> r[b] == cs[(#[trigger] e[b]).index as int];
    assert(cv[i] == cs[i]@);
    assert(is_matched(cv, q, i));
    if in_entries(e, i) {
        let b = choose|b: int| 0 <= b < e.len() && e[b].index == i;
        assert(r[b] == cs[i]);
        assert(false);
    }
    assert(entry_beats(e[a], skim_score(cv[i], q)->0, i));
    assert(entry_valid(cv, q, cv.len() as int, e[a]));
    assert(r[a]@ == cv[e[a].index as int]);
}

/// Two entries of a ranking never stand for the same candidate.
proof fn lemma_ranking_distinct(
    cs: Seq<Seq<char>>,
    q: Seq<char>,
    k: int,
    e: Seq<ScoredCandidate>,
    a: int,
    b: int,
)
    requires
        is_ranking(cs, q, k, e),
        0 <= a < b < e.len(),
    ensures
        e[a].index != e[b].index,
{
    assert(entry_prefers(e[a], e[b]));
    assert(entry_valid(cs, q, cs.len() as int, e[a]));
    assert(entry_valid(cs, q, cs.len() as int, e[b]));
}

/// One direction of the uniqueness argument: if two rankings agree before
/// position `a`, the entry of the second at `a` is at least as preferred as
/// the entry of the first.
proof fn lemma_ranking_unique_side(
    cs: Seq<Seq<char>>,
    q: Seq<char>,
    k: int,
    e1: Seq<ScoredCandidate>,
    e2: Seq<ScoredCandidate>,
    a: int,
)
    requires
        is_ranking(cs, q, k, e1),
        is_ranking(cs, q, k, e2),
        e1.len() == e2.len(),
        0 <= a < e1.len(),
        forall|b: int| 0 <= b < a ==> e1[b] == e2[b],
    ensures
        e2[a] == e1[a] || entry_prefers(e2[a], e1[a]),
{
    let x = e1[a];
    let i = x.index as int;
    assert(entry_valid(cs, q, cs.len() as int, x));
    if in_entries(e2, i) {
        let b = choose|b: int| 0 <= b < e2.len() && e2[b].index == i;
        assert(entry_valid(cs, q, cs.len() as int, e2[b]));
        assert(e2[b].score == x.score);
        if b < a {
            assert(e1[b].index == x.index);
            lemma_ranking_distinct(cs, q, k, e1, b, a);
            assert(false);
        } else if b == a {
            assert(e2[a] == x);
        } else {
            assert(entry_prefers(e2[a], e2[b]));
            assert(e2[b] == x);
        }
    } else {
        assert(entry_beats(e2[a], skim_score(cs[i], q)->0, i));
        assert(skim_score(cs[i], q)->0 == x.score);
    }
}

/// The two rankings agree on every position before `a`.
proof fn lemma_ranking_unique_prefix(
    cs: Seq<Seq<char>>,
    q: Seq<char>,
    k: int,
    e1: Seq<ScoredCandidate>,
    e2: Seq<ScoredCandidate>,
    a: int,
)
    requires
        is_ranking(cs, q, k, e1),
        is_ranking(cs, q, k, e2),
        e1.len() == e2.len(),
        0 <= a <= e1.len(),
    ensures
        forall|b: int| 0 <= b < a ==> e1[b] == e2[b],
    decreases a,
{
    if a > 0 {
        lemma_ranking_unique_prefix(cs, q, k, e1, e2, a - 1);
        lemma_ranking_unique_side(cs, q, k, e1, e2, a - 1);
        lemma_ranking_unique_side(cs, q, k, e2, e1, a - 1);
        assert(e1[a - 1] == e2[a - 1]);
    }
}

/// The ranking of a candidate sequence for a query and a bound is unique:
/// any two sequences of entries that each satisfy `is_ranking` are equal.
pub proof fn lemma_ranking_unique(
    cs: Seq<Seq<char>>,
    q: Seq<char>,
    k: int,
    e1: Seq<ScoredCandidate>,
    e2: Seq<ScoredCandidate>,
)
    requires
        is_ranking(cs, q, k, e1),
        is_ranking(cs, q, k, e2),
    ensures
        e1 == e2,
{
    lemma_ranking_unique_prefix(cs, q, k, e1, e2, e1.len() as int);
    assert(e1 =~= e2);
}

/// Idempotence of selection: two ranked results computed from identical
/// candidates, query and bound are identical.
pub proof fn lemma_select_top_k_deterministic(
    cs: Seq<String>,
    q: Seq<char>,
    k: int,
    r1: Seq<String>,
    r2: Seq<String>,
)
    requires
        top_k_post(cs, q, k, r1),
        top_k_post(cs, q, k, r2),
    ensures
        r1 == r2,
{
    let e1 = choose|e: Seq<ScoredCandidate>|
        #[trigger] is_ranking(cand_views(cs), q, k, e) && r1.len() == e.len() && forall|a: int|
            0 <= a < e.len() ==> r1[a] == cs[(#[trigger] e[a]).index as int];
    let e2 = choose|e: Seq<ScoredCandidate>|
        #[trigger] is_ranking(cand_views(cs), q, k, e) && r2.len() == e.len() && forall|a: int|
            0 <= a < e.len() ==> r2[a] == cs[(#[trigger] e[a]).index as int];
    lemma_ranking_unique(cand_views(cs), q, k, e1, e2);
    assert forall|a: int| 0 <= a < r1.len() implies r1[a] == r2[a] by {
        assert(r1[a] == cs[e1[a].index as int]);
        assert(r2[a] == cs[e2[a].index as int]);
    }
    assert(r1 =~= r2);
}

/// Tie-break determinism: when two matching candidates score equally and the
/// earlier one was left out of the ranking, the later one was left out too —
/// the earlier candidate is always the one preferred for a remaining slot.
pub proof fn lemma_tie_break(
    cs: Seq<Seq<char>>,
    q: Seq<char>,
    k: int,
    e: Seq<ScoredCandidate>,
    i: int,
    j: int,
)
    requires
        is_ranking(cs, q, k, e),
        0 <= i < j < cs.len(),
        is_matched(cs, q, i),
        is_matched(cs, q, j),
        skim_score(cs[i], q) == skim_score(cs[j], q),
        !in_entries(e, i),
    ensures
        !in_entries(e, j),
{
    if in_entries(e, j) {
        let a = choose|a: int| 0 <= a < e.len() && e[a].index == j;
        assert(entry_valid(cs, q, cs.len() as int, e[a]));
        assert(entry_beats(e[a], skim_score(cs[i], q)->0, i));
        assert(e[a].score == skim_score(cs[j], q)->0);
        assert(false);
    }
}

/// Tie-break determinism over the returned strings: when two distinct,
/// equally scoring candidates contest a slot and the later one was returned,
/// the earlier one was returned too — so an equal-scoring later challenger
/// never takes a slot from an earlier candidate. Stated for pairwise-distinct
/// candidate strings: with duplicated candidates a returned string no longer
/// names one candidate, and the law holds of candidate indices instead
/// (`lemma_tie_break`).
pub proof fn lemma_tie_break_strings(
    cs: Seq<String>,
    q: Seq<char>,
    k: int,
    r: Seq<String>,
    i: int,
    j: int,
)
    requires
        top_k_post(cs, q, k, r),
        forall|m: int, n: int| 0 <= m < n < cs.len() ==> cs[m] != cs[n],
        0 <= i < j < cs.len(),
        query_matches(cs[i]@, q),
        query_matches(cs[j]@, q),
        skim_score(cs[i]@, q) == skim_score(cs[j]@, q),
        exists|b: int| 0 <= b < r.len() && r[b] == cs[j],
    ensures
        exists|a: int| 0 <= a < r.len() && r[a] == cs[i],
{
    let cv = cand_views(cs);
    let e = choose|e: Seq<ScoredCandidate>|
        #[trigger] is_ranking(cv, q, k, e) && r.len() == e.len() && forall|a: int|
            0 <= a < e.len() ==> r[a] == cs[(#[trigger] e[a]).index as int];
    let b = choose|b: int| 0 <= b < r.len() && r[b] == cs[j];
    assert(entry_valid(cv, q, cv.len() as int, e[b]));
    assert(cs[e[b].index as int] == cs[j]);
    assert(e[b].index == j);
    assert(in_entries(e, j));
    assert(cv[i] == cs[i]@ && cv[j] == cs[j]@);
    if !in_entries(e, i) {
        lemma_tie_break(cv, q, k, e, i, j);
        assert(false);
    }
    let a = choose|a: int| 0 <= a < e.len() && e[a].index == i;
    assert(r[a] == cs[i]);
}

} // verus!
