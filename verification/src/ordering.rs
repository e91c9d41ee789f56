//! Putting positions in order.

use vstd::prelude::*;

verus! {

/// Whether `less` orders positions by a key: nothing is less than itself, and what
/// lies between two positions is on one side of every third.
pub open spec fn is_key_order(less: spec_fn(int, int) -> bool) -> bool {
    &&& forall|i: int| !#[trigger] less(i, i)
    &&& forall|i: int, j: int, k: int|
        #![trigger less(i, j), less(j, k)]
        less(i, j) && less(j, k) ==> less(i, k)
    &&& forall|i: int, j: int, k: int|
        #![trigger less(i, k), less(i, j)]
        #![trigger less(i, k), less(j, k)]
        less(i, k) ==> less(i, j) || less(j, k)
}

/// Whether position `i` comes before position `j`: its key is less, or the keys do not
/// differ and it stands earlier.
pub open spec fn comes_first(less: spec_fn(int, int) -> bool, i: int, j: int) -> bool {
    less(i, j) || (!less(j, i) && i < j)
}

/// Whether `order` is in order, equal keys in the order of their positions.
pub open spec fn in_order(order: Seq<usize>, less: spec_fn(int, int) -> bool) -> bool {
    forall|a: int, b: int|
        0 <= a < b < order.len() ==> comes_first(
            less,
            #[trigger] order[a] as int,
            #[trigger] order[b] as int,
        )
}

/// Puts position `new` in its place among `order`, whose positions all stand before it.
pub(crate) fn insert_position<F: Fn(usize, usize) -> bool>(
    order: &mut Vec<usize>,
    new: usize,
    is_less: F,
    Ghost(less): Ghost<spec_fn(int, int) -> bool>,
    Ghost(valid): Ghost<spec_fn(int) -> bool>,
)
    requires
        is_key_order(less),
        forall|i: usize, j: usize|
            valid(i as int) && valid(j as int) ==> #[trigger] call_requires(is_less, (i, j)),
        forall|i: usize, j: usize, r: bool|
            valid(i as int) && valid(j as int) && #[trigger] call_ensures(is_less, (i, j), r)
                ==> r == less(i as int, j as int),
        valid(new as int),
        forall|a: int|
            0 <= a < old(order)@.len() ==> #[trigger] old(order)@[a] < new && valid(
                old(order)@[a] as int,
            ),
        in_order(old(order)@, less),
    ensures
        in_order(final(order)@, less),
        final(order)@.len() == old(order)@.len() + 1,
        forall|p: usize|
            #[trigger] final(order)@.contains(p) <==> p == new || old(order)@.contains(p),
{
    let mut k: usize = 0;
    let ghost o = order@;
    while k < order.len() && !is_less(new, order[k])
        invariant
            k <= order@.len(),
            order@ == o,
            valid(new as int),
            forall|a: int|
                0 <= a < o.len() ==> #[trigger] o[a] < new && valid(o[a] as int),
            forall|i: usize, j: usize|
                valid(i as int) && valid(j as int) ==> #[trigger] call_requires(is_less, (i, j)),
            forall|i: usize, j: usize, r: bool|
                valid(i as int) && valid(j as int) && #[trigger] call_ensures(is_less, (i, j), r)
                    ==> r == less(i as int, j as int),
            forall|a: int| 0 <= a < k ==> !less(new as int, #[trigger] o[a] as int),
        decreases order@.len() - k,
    {
        k += 1;
    }
    order.insert(k, new);
    proof {
        let p = o.insert(k as int, new);
        assert(order@ == p);
        lemma_insert_holds(o, k as int, new);
        assert forall|a: int, b: int| 0 <= a < b < p.len() implies comes_first(
            less,
            #[trigger] p[a] as int,
            #[trigger] p[b] as int,
        ) by {
            if a < k && b == k {
                assert(!less(new as int, o[a] as int));
            } else if a == k && b > k {
                assert(p[b] == o[b - 1]);
                assert(less(new as int, o[k as int] as int));
                if b - 1 > k {
                    assert(comes_first(less, o[k as int] as int, o[b - 1] as int));
                }
            } else {
                let x = if a < k {
                    a
                } else {
                    a - 1
                };
                let y = if b < k {
                    b
                } else {
                    b - 1
                };
                assert(p[a] == o[x] && p[b] == o[y]);
            }
        }
    }
}

proof fn lemma_insert_holds(order: Seq<usize>, at: int, new: usize)
    requires
        0 <= at <= order.len(),
    ensures
        forall|p: usize|
            #[trigger] order.insert(at, new).contains(p) <==> p == new || order.contains(p),
{
    let all = order.insert(at, new);
    assert(all[at] == new);
    assert forall|p: usize| #[trigger] all.contains(p) <==> p == new || order.contains(p) by {
        if order.contains(p) {
            let i = choose|i: int| 0 <= i < order.len() && order[i] == p;
            let j = if i < at {
                i
            } else {
                i + 1
            };
            assert(all[j] == p);
        }
        if all.contains(p) && p != new {
            let i = choose|i: int| 0 <= i < all.len() && all[i] == p;
            let j = if i < at {
                i
            } else {
                i - 1
            };
            assert(order[j] == p);
        }
    }
}

/// There is only one order of the same positions.
pub proof fn law_order_is_unique(
    a: Seq<usize>,
    b: Seq<usize>,
    less: spec_fn(int, int) -> bool,
)
    requires
        is_key_order(less),
        in_order(a, less),
        in_order(b, less),
        forall|p: usize| a.contains(p) <==> b.contains(p),
    ensures
        a == b,
{
    lemma_shorter_is_prefix(a, b, less, a.len() as int);
    lemma_shorter_is_prefix(b, a, less, b.len() as int);
    if a.len() < b.len() {
        assert(b.contains(b[a.len() as int]));
        let i = choose|i: int| 0 <= i < a.len() && a[i] == b[a.len() as int];
        assert(a[i] == b[i]);
    } else if b.len() < a.len() {
        assert(a.contains(a[b.len() as int]));
        let i = choose|i: int| 0 <= i < b.len() && b[i] == a[b.len() as int];
        assert(a[i] == b[i]);
    }
    assert(a == b);
}

/// Two lists of the same positions, each once and none before one with a lesser key, have
/// the same key at every place.
pub proof fn lemma_same_keys(a: Seq<usize>, b: Seq<usize>, less: spec_fn(int, int) -> bool)
    requires
        is_key_order(less),
        forall|p: usize| #[trigger] a.contains(p) <==> b.contains(p),
        forall|x: int, y: int|
            0 <= x < y < a.len() ==> #[trigger] a[x] != #[trigger] a[y] && !less(
                a[y] as int,
                a[x] as int,
            ),
        forall|x: int, y: int|
            0 <= x < y < b.len() ==> #[trigger] b[x] != #[trigger] b[y] && !less(
                b[y] as int,
                b[x] as int,
            ),
    ensures
        forall|k: int|
            0 <= k < a.len() && k < b.len() ==> !less(#[trigger] a[k] as int, b[k] as int) && !less(
                b[k] as int,
                a[k] as int,
            ),
{
    assert forall|k: int| 0 <= k < a.len() && k < b.len() implies !less(
        #[trigger] a[k] as int,
        b[k] as int,
    ) && !less(b[k] as int, a[k] as int) by {
        lemma_no_lesser_key(a, b, less, k);
        lemma_no_lesser_key(b, a, less, k);
    }
}

/// If the key at place `k` of `a` were less, the first `k + 1` positions of `a` would all
/// be among the first `k` of `b`.
proof fn lemma_no_lesser_key(a: Seq<usize>, b: Seq<usize>, less: spec_fn(int, int) -> bool, k: int)
    requires
        is_key_order(less),
        forall|p: usize| #[trigger] a.contains(p) <==> b.contains(p),
        forall|x: int, y: int|
            0 <= x < y < a.len() ==> #[trigger] a[x] != #[trigger] a[y] && !less(
                a[y] as int,
                a[x] as int,
            ),
        forall|x: int, y: int|
            0 <= x < y < b.len() ==> #[trigger] b[x] != #[trigger] b[y] && !less(
                b[y] as int,
                b[x] as int,
            ),
        0 <= k < a.len(),
        k < b.len(),
    ensures
        !less(a[k] as int, b[k] as int),
{
    if less(a[k] as int, b[k] as int) {
        let (s, t) = (a.take(k + 1), b.take(k));
        assert forall|p: usize| s.to_set().contains(p) implies t.to_set().contains(p) by {
            let x = choose|x: int| 0 <= x < s.len() && s[x] == p;
            assert(a[x] == p && a.contains(p));
            let y = choose|y: int| 0 <= y < b.len() && b[y] == p;
            // The key of `p` is no greater than that of `a[k]`, so it is less than that of `b[k]`.
            if x < k {
                assert(!less(a[k] as int, a[x] as int));
            }
            assert(less(p as int, b[k] as int));
            if y > k {
                assert(!less(b[y] as int, b[k] as int));
            }
            assert(y < k);
            assert(t[y] == p);
        }
        s.unique_seq_to_set();
        t.lemma_cardinality_of_set();
        vstd::seq_lib::seq_to_set_is_finite(t);
        vstd::set_lib::lemma_len_subset(s.to_set(), t.to_set());
    }
}

proof fn lemma_shorter_is_prefix(
    a: Seq<usize>,
    b: Seq<usize>,
    less: spec_fn(int, int) -> bool,
    n: int,
)
    requires
        is_key_order(less),
        in_order(a, less),
        in_order(b, less),
        forall|p: usize| a.contains(p) <==> b.contains(p),
        0 <= n <= a.len(),
    ensures
        n <= b.len() ==> forall|i: int| 0 <= i < n ==> a[i] == b[i],
    decreases n,
{
    if n > 0 && n <= b.len() {
        lemma_shorter_is_prefix(a, b, less, n - 1);
        let k = n - 1;
        if a[k] != b[k] {
            assert(a.contains(a[k]));
            assert(b.contains(b[k]));
            let m = choose|m: int| 0 <= m < b.len() && b[m] == a[k];
            let l = choose|l: int| 0 <= l < a.len() && a[l] == b[k];
            if m < k {
                assert(a[m] == a[k]);
                assert(comes_first(less, a[m] as int, a[k] as int));
            }
            if l < k {
                assert(b[l] == b[k]);
                assert(comes_first(less, b[l] as int, b[k] as int));
            }
            assert(comes_first(less, b[k] as int, b[m] as int));
            assert(comes_first(less, a[k] as int, a[l] as int));
        }
    }
}

} // verus!
