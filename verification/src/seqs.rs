//! Searching a sequence for the first item of a kind.

use vstd::prelude::*;

verus! {

/// Index of the first item of `s` that `p` holds of; `s.len()` where there is none.
pub open spec fn first_index<A>(s: Seq<A>, p: spec_fn(A) -> bool) -> nat
    decreases s.len(),
{
    if s.len() == 0 || p(s[0]) {
        0
    } else {
        1 + first_index(s.skip(1), p)
    }
}

/// The first index lies within the sequence or at its end, `p` holds of the
/// item there, and of none before it.
pub proof fn lemma_first_index<A>(s: Seq<A>, p: spec_fn(A) -> bool)
    ensures
        first_index(s, p) <= s.len(),
        first_index(s, p) < s.len() ==> p(s[first_index(s, p) as int]),
        forall|j: int| 0 <= j < first_index(s, p) ==> !p(#[trigger] s[j]),
    decreases s.len(),
{
    if s.len() == 0 || p(s[0]) {
    } else {
        let t = s.skip(1);
        lemma_first_index(t, p);
        assert forall|j: int| 0 <= j < first_index(s, p) implies !p(#[trigger] s[j]) by {
            if j > 0 {
                assert(s[j] == t[j - 1]);
            }
        }
        assert(first_index(t, p) < t.len() ==> t[first_index(t, p) as int] == s[first_index(
            s,
            p,
        ) as int]);
    }
}

/// An index with `p` at it, or the end, and no `p` before it, is the first index.
pub proof fn lemma_first_index_is<A>(s: Seq<A>, p: spec_fn(A) -> bool, k: int)
    requires
        0 <= k <= s.len(),
        forall|j: int| 0 <= j < k ==> !p(#[trigger] s[j]),
        k < s.len() ==> p(s[k]),
    ensures
        first_index(s, p) == k,
{
    lemma_first_index(s, p);
    let f = first_index(s, p) as int;
    if f < k {
        assert(!p(s[f]));
    } else if f > k {
        assert(!p(s[k]));
    }
}

} // verus!
