//! Where an element of a sequence stands.

use vstd::prelude::*;

verus! {

/// The position of the first `x` of `s`, or its length.
pub open spec fn first_at<T>(s: Seq<T>, x: T) -> int
    decreases s.len(),
{
    if s.len() == 0 || s[0] == x {
        0
    } else {
        1 + first_at(s.drop_first(), x)
    }
}

/// The first position is where the first one stands.
pub proof fn lemma_first_at<T>(s: Seq<T>, x: T, n: int)
    requires
        0 <= n <= s.len(),
        forall|j: int| 0 <= j < n ==> s[j] != x,
        n < s.len() ==> s[n] == x,
    ensures
        first_at(s, x) == n,
    decreases n,
{
    if n > 0 {
        assert forall|j: int| 0 <= j < n - 1 implies s.drop_first()[j] != x by {
            assert(s.drop_first()[j] == s[j + 1]);
        }
        lemma_first_at(s.drop_first(), x, n - 1);
    }
}

/// What stands before the first position is something else.
pub proof fn lemma_first_at_bounds<T>(s: Seq<T>, x: T)
    ensures
        0 <= first_at(s, x) <= s.len(),
        forall|j: int| 0 <= j < first_at(s, x) ==> s[j] != x,
        first_at(s, x) < s.len() ==> s[first_at(s, x)] == x,
    decreases s.len(),
{
    if s.len() > 0 && s[0] != x {
        lemma_first_at_bounds(s.drop_first(), x);
        assert forall|j: int| 0 <= j < first_at(s, x) implies s[j] != x by {
            if j > 0 {
                assert(s.drop_first()[j - 1] == s[j]);
            }
        }
        let m = first_at(s.drop_first(), x);
        if m < s.drop_first().len() {
            assert(s.drop_first()[m] == s[m + 1]);
        }
    }
}

} // verus!
