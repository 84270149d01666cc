//! Task lookup: a query token resolves either as a 0-based index or as a
//! name, with case-insensitive exact matching first and similarity-scored
//! fuzzy matching after it.
//!
//! Under strict matching a fuzzy candidate is only suggested, never
//! resolved; under non-strict matching the single best candidate at or above
//! the threshold resolves directly. Scores and thresholds are in millionths.

use vstd::prelude::*;
use crate::store::Task;
use crate::text::{lower_of, similarity_of, lowercase, similarity_millionths};
use crate::timeparse::{is_digit, digit_val};

verus! {

/// Similarity of a task's description to the query, both case-folded.
pub open spec fn score_of(t: Task, q: Seq<char>) -> int {
    similarity_of(lower_of(t.description@), lower_of(q))
}

/// The case-folded query equals the case-folded description at `i`.
pub open spec fn exact_at(s: Seq<Task>, q: Seq<char>, i: int) -> bool {
    0 <= i < s.len() && lower_of(s[i].description@) == lower_of(q)
}

/// The first exact, case-insensitive match at or after `i`.
pub open spec fn first_exact_from(s: Seq<Task>, q: Seq<char>, i: int) -> Option<int>
    decreases s.len() - i,
{
    if i < 0 || i >= s.len() {
        None
    } else if exact_at(s, q, i) {
        Some(i)
    } else {
        first_exact_from(s, q, i + 1)
    }
}

/// The first task with the strictly highest score, scanning from `i` with
/// `best` the leader so far: later tasks take the lead only by scoring
/// strictly higher.
pub open spec fn best_candidate_from(
    s: Seq<Task>,
    q: Seq<char>,
    i: int,
    best: Option<(int, int)>,
) -> Option<(int, int)>
    decreases s.len() - i,
{
    if i < 0 || i >= s.len() {
        best
    } else {
        let sc = score_of(s[i], q);
        let better = match best {
            None => true,
            Some(b) => sc > b.1,
        };
        best_candidate_from(
            s,
            q,
            i + 1,
            if better {
                Some((i, sc))
            } else {
                best
            },
        )
    }
}

/// The first task with the highest score, and that score.
pub open spec fn best_candidate(s: Seq<Task>, q: Seq<char>) -> Option<(int, int)> {
    best_candidate_from(s, q, 0, None)
}

/// What a name lookup yields: the resolved index, if any, and the fuzzy
/// candidate to report, if any, as an index-score pair.
///
/// An exact match always resolves. Otherwise, under strict matching the best
/// candidate strictly above the threshold is only suggested; under
/// non-strict matching the best candidate at or above the threshold, with a
/// score above zero, resolves directly.
pub open spec fn name_resolution(s: Seq<Task>, q: Seq<char>, threshold: int, strict: bool) -> (
    Option<int>,
    Option<(int, int)>,
) {
    match first_exact_from(s, q, 0) {
        Some(i) => if strict {
            (Some(i), None)
        } else {
            (Some(i), Some((i, score_of(s[i], q))))
        },
        None => match best_candidate(s, q) {
            Some(p) => if strict {
                if p.1 > threshold {
                    (None, Some(p))
                } else {
                    (None, None)
                }
            } else {
                if p.1 >= threshold && p.1 > 0 {
                    (Some(p.0), Some(p))
                } else {
                    (None, None)
                }
            },
            None => (None, None),
        },
    }
}

/// Every character from position `i` on is an ASCII digit.
pub open spec fn all_digits_from(q: Seq<char>, i: int) -> bool {
    forall|k: int| i <= k < q.len() ==> is_digit(q[k])
}

/// The token looks like an index: all digits, or a leading `-` followed by
/// digits (which still never resolves, as indices are unsigned).
pub open spec fn is_index_query(q: Seq<char>) -> bool {
    all_digits_from(q, 0) || (q.len() > 0 && q[0] == '-' && all_digits_from(q, 1))
}

/// The numeric value of a digit string.
pub open spec fn digits_value(q: Seq<char>) -> int
    decreases q.len(),
{
    if q.len() == 0 {
        0
    } else {
        digits_value(q.drop_last()) * 10 + digit_val(q.last())
    }
}

/// What an index lookup yields on a list of the given length: digit tokens
/// resolve exactly when their value is a position in the list; empty,
/// `-`-prefixed and oversized tokens never resolve.
pub open spec fn index_resolution(len: int, q: Seq<char>) -> Option<int> {
    if all_digits_from(q, 0) && q.len() > 0 && digits_value(q) <= usize::MAX && digits_value(q)
        < len {
        Some(digits_value(q))
    } else {
        None
    }
}

/// A fuzzy candidate: where it stands, what it says, and its score in
/// millionths.
pub struct Candidate {
    pub index: usize,
    pub description: String,
    pub score: u64,
}

/// What a lookup returned: the resolved position, if any; the fuzzy
/// candidate to report, if any; and whether the query was an index lookup.
pub struct FindResult {
    pub index: Option<usize>,
    pub candidate: Option<Candidate>,
    pub by_index: bool,
}

pub open spec fn index_opt_matches(a: Option<usize>, b: Option<int>) -> bool {
    match (a, b) {
        (Some(x), Some(y)) => x == y,
        (None, None) => true,
        _ => false,
    }
}

pub open spec fn candidate_matches(c: Option<Candidate>, s: Seq<Task>, b: Option<(int, int)>) -> bool {
    match (c, b) {
        (Some(c), Some(p)) => c.index == p.0 && c.score == p.1 && 0 <= p.0 < s.len()
            && c.description@ == s[p.0].description@,
        (None, None) => true,
        _ => false,
    }
}

/// A `FindResult` says what the two resolution functions say of the query.
pub open spec fn find_result_matches(
    r: FindResult,
    s: Seq<Task>,
    q: Seq<char>,
    threshold: int,
    strict: bool,
) -> bool {
    &&& r.by_index == is_index_query(q)
    &&& if is_index_query(q) {
        index_opt_matches(r.index, index_resolution(s.len() as int, q)) && r.candidate.is_none()
    } else {
        index_opt_matches(r.index, name_resolution(s, q, threshold, strict).0)
            && candidate_matches(r.candidate, s, name_resolution(s, q, threshold, strict).1)
    }
}

/// A 0-based index resolves when it is a position in the list.
pub fn find_by_index(tasks: &Vec<Task>, index: usize) -> (r: Option<usize>)
    ensures
        r == if index < tasks@.len() {
            Some(index)
        } else {
            None::<usize>
        },
{
    if index < tasks.len() {
        Some(index)
    } else {
        None
    }
}

pub(crate) fn all_digits_in(q: &str, from: usize) -> (r: bool)
    requires
        from <= q@.len(),
    ensures
        r == all_digits_from(q@, from as int),
{
    let n = q.unicode_len();
    let mut i: usize = from;
    while i < n
        invariant
            from <= i <= n,
            n == q@.len(),
            forall|k: int| from <= k < i ==> is_digit(q@[k]),
        decreases n - i,
    {
        let c = q.get_char(i);
        let cv = c as u32;
        if cv < 48 || cv > 57 {
            return false;
        }
        i = i + 1;
    }
    true
}

/// Saturation bound for index parsing: one above `usize::MAX`.
const IDX_CAP: u128 = 18446744073709551616;

fn parse_index(q: &str) -> (r: Option<usize>)
    requires
        all_digits_from(q@, 0),
        q@.len() > 0,
    ensures
        r == if digits_value(q@) <= usize::MAX {
            Some(digits_value(q@) as usize)
        } else {
            None::<usize>
        },
{
    let n = q.unicode_len();
    let mut i: usize = 0;
    let mut acc: u128 = 0;
    proof {
        assert(q@.subrange(0, 0) =~= Seq::<char>::empty());
    }
    while i < n
        invariant
            i <= n,
            n == q@.len(),
            all_digits_from(q@, 0),
            digits_value(q@.subrange(0, i as int)) >= 0,
            acc as int == if digits_value(q@.subrange(0, i as int)) < IDX_CAP {
                digits_value(q@.subrange(0, i as int))
            } else {
                IDX_CAP as int
            },
        decreases n - i,
    {
        let ghost pre = q@.subrange(0, i as int);
        let c = q.get_char(i);
        let d = (c as u32 - 48) as u128;
        proof {
            assert(is_digit(q@[i as int]));
            assert(q@.subrange(0, i as int + 1).drop_last() == pre);
            assert(all_digits_from(pre, 0)) by {
                assert(forall|k: int| 0 <= k < pre.len() ==> pre[k] == q@[k] && is_digit(q@[k]));
            }
            assert(digits_value(pre) * 10 >= 0) by (nonlinear_arith)
                requires
                    digits_value(pre) >= 0,
            ;
            if digits_value(pre) >= IDX_CAP {
                assert(digits_value(pre) * 10 + digit_val(c) >= IDX_CAP) by (nonlinear_arith)
                    requires
                        digits_value(pre) >= IDX_CAP > 0,
                        digit_val(c) >= 0,
                ;
            }
        }
        let nv = acc * 10 + d;
        acc = if nv >= IDX_CAP {
            IDX_CAP
        } else {
            nv
        };
        i = i + 1;
    }
    proof {
        assert(q@.subrange(0, n as int) == q@);
    }
    if acc <= usize::MAX as u128 {
        Some(acc as usize)
    } else {
        None
    }
}

/// Look a query up among the task descriptions.
pub fn find_by_name(tasks: &Vec<Task>, query: &String, threshold: u64, strict: bool) -> (r: (
    Option<usize>,
    Option<Candidate>,
))
    ensures
        index_opt_matches(r.0, name_resolution(tasks@, query@, threshold as int, strict).0),
        candidate_matches(r.1, tasks@, name_resolution(tasks@, query@, threshold as int, strict).1),
        r.0 matches Some(i) ==> i < tasks@.len(),
{
    let query_lower = lowercase(query.as_str());
    let mut i: usize = 0;
    let mut exact: Option<usize> = None;
    while i < tasks.len()
        invariant_except_break
            exact.is_none(),
            first_exact_from(tasks@, query@, 0) == first_exact_from(tasks@, query@, i as int),
        invariant
            i <= tasks@.len(),
            query_lower@ == lower_of(query@),
        ensures
            query_lower@ == lower_of(query@),
            (match exact {
                Some(e) => first_exact_from(tasks@, query@, 0) == Some(e as int) && e
                    < tasks@.len(),
                None => first_exact_from(tasks@, query@, 0) is None,
            }),
        decreases tasks@.len() - i,
    {
        let dl = lowercase(tasks[i].description.as_str());
        if dl.eq(&query_lower) {
            exact = Some(i);
            proof {
                assert(first_exact_from(tasks@, query@, i as int) == Some(i as int));
            }
            break ;
        }
        i = i + 1;
    }
    if let Some(ei) = exact {
        if strict {
            return (Some(ei), None);
        } else {
            let sc = similarity_millionths(
                lowercase(tasks[ei].description.as_str()).as_str(),
                query_lower.as_str(),
            );
            return (
                Some(ei),
                Some(
                    Candidate {
                        index: ei,
                        description: tasks[ei].description.clone(),
                        score: sc,
                    },
                ),
            );
        }
    }
    // no exact match anywhere: scan for the best-scoring candidate
    let mut best_idx: usize = 0;
    let mut best_score: u64 = 0;
    let mut have_best: bool = false;
    let ghost spec_best_of = |hb: bool, bi: usize, bs: u64|
        if hb {
            Some((bi as int, bs as int))
        } else {
            None::<(int, int)>
        };
    let mut j: usize = 0;
    while j < tasks.len()
        invariant
            j <= tasks@.len(),
            query_lower@ == lower_of(query@),
            have_best ==> best_idx < tasks@.len(),
            best_candidate(tasks@, query@) == best_candidate_from(
                tasks@,
                query@,
                j as int,
                if have_best {
                    Some((best_idx as int, best_score as int))
                } else {
                    None::<(int, int)>
                },
            ),
        decreases tasks@.len() - j,
    {
        let dl = lowercase(tasks[j].description.as_str());
        let sc = similarity_millionths(dl.as_str(), query_lower.as_str());
        if !have_best || sc > best_score {
            best_idx = j;
            best_score = sc;
            have_best = true;
        }
        j = j + 1;
    }
    if have_best {
        if strict {
            if best_score > threshold {
                return (
                    None,
                    Some(
                        Candidate {
                            index: best_idx,
                            description: tasks[best_idx].description.clone(),
                            score: best_score,
                        },
                    ),
                );
            } else {
                return (None, None);
            }
        } else {
            if best_score >= threshold && best_score > 0 {
                return (
                    Some(best_idx),
                    Some(
                        Candidate {
                            index: best_idx,
                            description: tasks[best_idx].description.clone(),
                            score: best_score,
                        },
                    ),
                );
            } else {
                return (None, None);
            }
        }
    }
    (None, None)
}

/// Resolve a query token: as an index when it is made of digits (with an
/// optional leading `-`), as a name otherwise.
pub fn find_task(tasks: &Vec<Task>, query: &String, threshold: u64, strict: bool) -> (r:
    FindResult)
    ensures
        find_result_matches(r, tasks@, query@, threshold as int, strict),
        r.index matches Some(i) ==> i < tasks@.len(),
{
    let n = query.as_str().unicode_len();
    let plain_digits = all_digits_in(query.as_str(), 0);
    let neg_digits = n > 0 && query.as_str().get_char(0) == '-' && all_digits_in(query.as_str(), 1);
    if plain_digits || neg_digits {
        if plain_digits && n > 0 {
            proof {
                lemma_digits_value_nonneg(query@);
            }
            let idx = parse_index(query.as_str());
            match idx {
                Some(k) => FindResult {
                    index: find_by_index(tasks, k),
                    candidate: None,
                    by_index: true,
                },
                None => FindResult { index: None, candidate: None, by_index: true },
            }
        } else {
            // empty token, or a leading minus: the unsigned parse fails
            FindResult { index: None, candidate: None, by_index: true }
        }
    } else {
        let (index, candidate) = find_by_name(tasks, query, threshold, strict);
        FindResult { index, candidate, by_index: false }
    }
}

/// The value of a digit string is never negative.
pub proof fn lemma_digits_value_nonneg(q: Seq<char>)
    requires
        all_digits_from(q, 0),
    ensures
        digits_value(q) >= 0,
    decreases q.len(),
{
    if q.len() > 0 {
        assert(all_digits_from(q.drop_last(), 0)) by {
            assert(forall|k: int|
                0 <= k < q.len() - 1 ==> q.drop_last()[k] == q[k] && is_digit(q[k]));
        }
        lemma_digits_value_nonneg(q.drop_last());
        assert(digits_value(q.drop_last()) * 10 >= 0) by (nonlinear_arith)
            requires
                digits_value(q.drop_last()) >= 0,
        ;
        assert(is_digit(q.last()));
    }
}

/// A digit token resolves as an index exactly when its value is a position
/// in the list; a token that starts with anything but a digit or `-` is no
/// index lookup at all.
pub proof fn lemma_index_resolution(len: int, q: Seq<char>)
    ensures
        all_digits_from(q, 0) && q.len() > 0 && digits_value(q) <= usize::MAX ==> (
        index_resolution(len, q) == if 0 <= digits_value(q) < len {
            Some(digits_value(q))
        } else {
            None::<int>
        }),
        q.len() > 0 && !is_digit(q[0]) && q[0] != '-' ==> !is_index_query(q) && index_resolution(
            len,
            q,
        ) is None,
{
    if all_digits_from(q, 0) {
        lemma_digits_value_nonneg(q);
    }
}

/// The first exact match lies in bounds and is exact.
proof fn lemma_first_exact_props(s: Seq<Task>, q: Seq<char>, i: int)
    requires
        first_exact_from(s, q, i) is Some,
    ensures
        i <= first_exact_from(s, q, i).unwrap() < s.len(),
        exact_at(s, q, first_exact_from(s, q, i).unwrap()),
    decreases s.len() - i,
{
    if 0 <= i < s.len() && !exact_at(s, q, i) {
        lemma_first_exact_props(s, q, i + 1);
    }
}

/// Whatever the threshold, non-strict matching always resolves an exact
/// match, and the reported score is the full million.
pub proof fn lemma_non_strict_resolves_exact(s: Seq<Task>, q: Seq<char>, threshold: int)
    requires
        first_exact_from(s, q, 0) is Some,
    ensures
        name_resolution(s, q, threshold, false).0 == Some(first_exact_from(s, q, 0).unwrap()),
        name_resolution(s, q, threshold, false).1 matches Some(p) && p.1 == 1000000,
{
    lemma_first_exact_props(s, q, 0);
    let e = first_exact_from(s, q, 0).unwrap();
    crate::text::lemma_similarity_of_equal(lower_of(q));
}

/// The intended asymmetry: with no exact match and a candidate scoring above
/// the threshold, strict matching only suggests the candidate, while
/// non-strict matching resolves it.
pub proof fn lemma_strict_asymmetry(s: Seq<Task>, q: Seq<char>, threshold: int)
    requires
        first_exact_from(s, q, 0) is None,
        best_candidate(s, q) matches Some(p) && p.1 > threshold && p.1 > 0,
    ensures
        name_resolution(s, q, threshold, true).0 is None,
        name_resolution(s, q, threshold, true).1 == best_candidate(s, q),
        name_resolution(s, q, threshold, false).0 == Some(best_candidate(s, q).unwrap().0),
        name_resolution(s, q, threshold, false).0 is Some,
{
}

} // verus!
