//! Searching a sequence for its first match.

use vstd::prelude::*;

verus! {

/// Where the first `x` stands in `s`, or `s.len()` when there is none.
pub open spec fn first_index<A>(s: Seq<A>, x: A) -> nat
    decreases s.len(),
{
    if s.len() == 0 {
        0
    } else if s[0] == x {
        0
    } else {
        1 + first_index(s.drop_first(), x)
    }
}

pub proof fn lemma_first_index<A>(s: Seq<A>, x: A, k: int)
    requires
        0 <= k <= s.len(),
        forall|i: int| 0 <= i < k ==> s[i] != x,
        k == s.len() || s[k] == x,
    ensures
        first_index(s, x) == k,
    decreases k,
{
    if k > 0 {
        lemma_first_index(s.drop_first(), x, k - 1);
    }
}

pub proof fn lemma_first_index_bound<A>(s: Seq<A>, x: A)
    ensures
        first_index(s, x) <= s.len(),
        first_index(s, x) < s.len() ==> s[first_index(s, x) as int] == x,
        forall|i: int| 0 <= i < first_index(s, x) ==> s[i] != x,
    decreases s.len(),
{
    if s.len() > 0 && s[0] != x {
        lemma_first_index_bound(s.drop_first(), x);
        assert forall|i: int| 0 <= i < first_index(s, x) implies s[i] != x by {
            if i > 0 {
                assert(s[i] == s.drop_first()[i - 1]);
            }
        }
    }
}

/// In a sequence with no repeats, `first_index` finds the one place `x`
/// stands.
pub proof fn lemma_first_index_unique<A>(s: Seq<A>, x: A, k: int)
    requires
        0 <= k < s.len(),
        s[k] == x,
        forall|i: int, j: int| 0 <= i < j < s.len() ==> s[i] != s[j],
    ensures
        first_index(s, x) == k,
{
    lemma_first_index(s, x, k);
}

} // verus!
