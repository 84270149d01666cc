//! Case folding and a normalized string-similarity score.
//!
//! The score is an integer number of millionths: 1000000 means the strings
//! are equal, 0 means they have nothing in common. It is one minus the edit
//! distance divided by the longer length, in integer arithmetic.

use vstd::prelude::*;
use vstd::arithmetic::div_mod::{lemma_div_is_ordered, lemma_div_by_multiple};

verus! {

/// What `str::to_lowercase` returns: a function of the characters alone.
pub uninterp spec fn lower_of(s: Seq<char>) -> Seq<char>;

/// Relies on `str::to_lowercase`: the result depends on the characters
/// alone, and an empty string stays empty.
#[verifier::external_body]
pub(crate) fn lowercase(s: &str) -> (r: String)
    ensures
        r@ == lower_of(s@),
        s@.len() == 0 ==> r@.len() == 0,
{
    s.to_lowercase()
}

/// The edit distance: the least number of character insertions, deletions
/// and substitutions that turns one sequence into the other.
pub open spec fn edit_distance(a: Seq<char>, b: Seq<char>) -> nat
    decreases a.len() + b.len(),
{
    if a.len() == 0 {
        b.len()
    } else if b.len() == 0 {
        a.len()
    } else {
        let keep = edit_distance(a.drop_first(), b.drop_first()) + (if a[0] == b[0] {
            0nat
        } else {
            1nat
        });
        let del = edit_distance(a.drop_first(), b) + 1;
        let ins = edit_distance(a, b.drop_first()) + 1;
        if keep <= del && keep <= ins {
            keep
        } else if del <= ins {
            del
        } else {
            ins
        }
    }
}

/// The edit distance never exceeds the longer length, and it is zero exactly
/// on equal sequences.
pub proof fn lemma_edit_distance_bounds(a: Seq<char>, b: Seq<char>)
    ensures
        a.len() <= b.len() ==> edit_distance(a, b) <= b.len(),
        b.len() <= a.len() ==> edit_distance(a, b) <= a.len(),
        (edit_distance(a, b) == 0) <==> (a == b),
    decreases a.len() + b.len(),
{
    if a.len() == 0 {
        if b.len() == 0 {
            assert(a =~= b);
        }
    } else if b.len() == 0 {
    } else {
        lemma_edit_distance_bounds(a.drop_first(), b.drop_first());
        if a[0] == b[0] && edit_distance(a.drop_first(), b.drop_first()) == 0 {
            assert(a.drop_first() == b.drop_first());
            assert(a =~= b) by {
                assert(forall|i: int|
                    1 <= i < a.len() ==> a[i] == a.drop_first()[i - 1] && b[i]
                        == b.drop_first()[i - 1]);
            }
        }
        if a == b {
            assert(a.drop_first() == b.drop_first());
        }
    }
}

/// Relies on `strsim::levenshtein`: it computes the edit distance between
/// the two strings' characters, a function of the two strings alone.
#[verifier::external_body]
pub(crate) fn levenshtein(a: &str, b: &str) -> (r: usize)
    ensures
        r == edit_distance(a@, b@),
{
    strsim::levenshtein(a, b)
}

/// Similarity of two strings in millionths, from their edit distance.
pub open spec fn similarity_of(a: Seq<char>, b: Seq<char>) -> int {
    let m = if a.len() >= b.len() {
        a.len() as int
    } else {
        b.len() as int
    };
    if m == 0 {
        1000000
    } else {
        (m - edit_distance(a, b)) * 1000000 / m
    }
}

/// Equal strings score the full million.
pub proof fn lemma_similarity_of_equal(a: Seq<char>)
    ensures
        similarity_of(a, a) == 1000000,
{
    lemma_edit_distance_bounds(a, a);
    if a.len() > 0 {
        let m = a.len() as int;
        lemma_div_by_multiple(1000000, m);
        assert(m * 1000000 == 1000000 * m) by (nonlinear_arith);
    }
}

/// Normalized similarity score in millionths.
pub fn similarity_millionths(a: &str, b: &str) -> (r: u64)
    ensures
        r == similarity_of(a@, b@),
        r <= 1000000,
        a@ == b@ ==> r == 1000000,
{
    let la = a.unicode_len();
    let lb = b.unicode_len();
    let m = if la >= lb {
        la
    } else {
        lb
    };
    if m == 0 {
        proof {
            assert(a@ =~= b@);
        }
        1000000
    } else {
        let lev = levenshtein(a, b);
        proof {
            lemma_edit_distance_bounds(a@, b@);
        }
        let num = ((m - lev) as u128) * 1000000;
        let q = num / (m as u128);
        proof {
            lemma_div_is_ordered(num as int, (m as int) * 1000000, m as int);
            lemma_div_by_multiple(1000000, m as int);
            assert((m as int) * 1000000 == 1000000 * (m as int)) by (nonlinear_arith);
            assert(num as int == ((m - lev) as int) * 1000000);
        }
        q as u64
    }
}

} // verus!
