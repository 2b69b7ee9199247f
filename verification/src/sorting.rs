//! A stable sort by text keys, in `String` order.

use vstd::prelude::*;
use crate::text::{
    lemma_lex_less_asymmetric, lemma_lex_less_irreflexive, lemma_lex_less_total,
    lemma_lex_less_transitive, lex_less, lex_less_exec,
};

verus! {

/// Whether item `a` comes before item `b`: by key, and for equal keys in
/// the order the items came in.
pub open spec fn precedes(keys: Seq<Seq<char>>, a: int, b: int) -> bool {
    lex_less(keys[a], keys[b]) || (keys[a] == keys[b] && a < b)
}

/// `k` appears in `order`.
pub open spec fn occurs(order: Seq<usize>, k: int) -> bool {
    exists|i: int| 0 <= i < order.len() && order[i] == k
}

/// `order` lists each index of `keys` once, in key order; items with equal
/// keys keep the order they came in (a stable sort).
pub open spec fn is_sorted_order(keys: Seq<Seq<char>>, order: Seq<usize>) -> bool {
    &&& order.len() == keys.len()
    &&& forall|i: int| 0 <= i < order.len() ==> #[trigger] order[i] < keys.len()
    &&& forall|k: int| 0 <= k < keys.len() ==> #[trigger] occurs(order, k)
    &&& forall|i: int, j: int| 0 <= i < j < order.len() ==> order[i] != order[j]
    &&& forall|i: int, j: int| 0 <= i < j < order.len() ==> precedes(keys, #[trigger] order[i] as int, #[trigger] order[j] as int)
}

pub open spec fn keys_view(keys: Seq<Vec<char>>) -> Seq<Seq<char>> {
    keys.map_values(|k: Vec<char>| k@)
}

/// The order of items with these keys.
pub open spec fn spec_sorted_order(keys: Seq<Seq<char>>) -> Seq<usize> {
    choose|o: Seq<usize>| is_sorted_order(keys, o)
}

/// There is exactly one such order for a list of keys.
pub proof fn law_sorted_order_is_unique(keys: Seq<Seq<char>>, o1: Seq<usize>, o2: Seq<usize>)
    requires
        is_sorted_order(keys, o1),
        is_sorted_order(keys, o2),
    ensures
        o1 == o2,
{
    if o1 != o2 {
        assert(!(o1 =~= o2));
        let i = choose|i: int| 0 <= i < o1.len() && o1[i] != o2[i];
        let i0 = first_difference(o1, o2, i);
        let a = o1[i0];
        let b = o2[i0];
        assert(occurs(o2, a as int));
        assert(occurs(o1, b as int));
        let j = choose|j: int| 0 <= j < o2.len() && o2[j] == a as int;
        let j1 = choose|j1: int| 0 <= j1 < o1.len() && o1[j1] == b as int;
        if j < i0 {
            assert(o1[j] == o2[j]);
        }
        if j1 < i0 {
            assert(o1[j1] == o2[j1]);
        }
        assert(j > i0 && j1 > i0);
        assert(precedes(keys, b as int, a as int));
        assert(precedes(keys, a as int, b as int));
        if lex_less(keys[a as int], keys[b as int]) {
            lemma_lex_less_asymmetric(keys[a as int], keys[b as int]);
            lemma_lex_less_irreflexive(keys[a as int]);
        } else {
            lemma_lex_less_irreflexive(keys[a as int]);
        }
    }
}

proof fn first_difference(o1: Seq<usize>, o2: Seq<usize>, i: int) -> (r: int)
    requires
        o1.len() == o2.len(),
        0 <= i < o1.len(),
        o1[i] != o2[i],
    ensures
        0 <= r <= i,
        o1[r] != o2[r],
        forall|k: int| 0 <= k < r ==> o1[k] == o2[k],
    decreases i,
{
    if exists|k: int| 0 <= k < i && o1[k] != o2[k] {
        let k = choose|k: int| 0 <= k < i && o1[k] != o2[k];
        first_difference(o1, o2, k)
    } else {
        i
    }
}

/// An order that sorts the keys is the one `spec_sorted_order` names.
pub proof fn lemma_sorted_order_is_spec(keys: Seq<Seq<char>>, o: Seq<usize>)
    requires
        is_sorted_order(keys, o),
    ensures
        o == spec_sorted_order(keys),
{
    let c = spec_sorted_order(keys);
    assert(is_sorted_order(keys, c));
    law_sorted_order_is_unique(keys, o, c);
}

/// `order` sorts the first `n` items: it lists each index below `n` once,
/// in key order.
pub open spec fn sorts_first(keys: Seq<Seq<char>>, order: Seq<usize>, n: int) -> bool {
    &&& order.len() == n
    &&& forall|i: int| 0 <= i < order.len() ==> #[trigger] order[i] < n
    &&& forall|k: int| 0 <= k < n ==> #[trigger] occurs(order, k)
    &&& forall|i: int, j: int| 0 <= i < j < order.len() ==> order[i] != order[j]
    &&& forall|i: int, j: int| 0 <= i < j < order.len() ==> precedes(keys, #[trigger] order[i] as int, #[trigger] order[j] as int)
}

/// The first position of `order` from `p` on whose key is greater than that
/// of `x`, or its length.
pub open spec fn first_greater(keys: Seq<Seq<char>>, order: Seq<usize>, x: int, p: int) -> int
    decreases order.len() - p,
{
    if p < 0 || p >= order.len() {
        order.len() as int
    } else if lex_less(keys[x], keys[order[p] as int]) {
        p
    } else {
        first_greater(keys, order, x, p + 1)
    }
}

proof fn lemma_first_greater(keys: Seq<Seq<char>>, order: Seq<usize>, x: int, p: int)
    requires
        0 <= p <= order.len(),
    ensures
        p <= first_greater(keys, order, x, p) <= order.len(),
        first_greater(keys, order, x, p) < order.len() ==> lex_less(keys[x], keys[order[first_greater(keys, order, x, p)] as int]),
        forall|i: int| p <= i < first_greater(keys, order, x, p) ==> !lex_less(keys[x], keys[#[trigger] order[i] as int]),
    decreases order.len() - p,
{
    if p < order.len() && !lex_less(keys[x], keys[order[p] as int]) {
        lemma_first_greater(keys, order, x, p + 1);
    }
}

/// A stable sorted order of the first `n` items exists.
proof fn lemma_sorted_prefix_exists(keys: Seq<Seq<char>>, n: int) -> (o: Seq<usize>)
    requires
        0 <= n <= keys.len(),
        keys.len() <= usize::MAX,
    ensures
        sorts_first(keys, o, n),
    decreases n,
{
    if n == 0 {
        Seq::empty()
    } else {
        let x = n - 1;
        let old_order = lemma_sorted_prefix_exists(keys, x);
        lemma_first_greater(keys, old_order, x, 0);
        let p = first_greater(keys, old_order, x, 0);
        assert forall|i: int| 0 <= i < p implies #[trigger] precedes(keys, old_order[i] as int, x) by {
            lemma_lex_less_total(keys[x], keys[old_order[i] as int]);
        }
        assert forall|j: int| p <= j < old_order.len() implies #[trigger] precedes(keys, x, old_order[j] as int) by {
            assert(lex_less(keys[x], keys[old_order[p] as int]));
            if j > p {
                assert(precedes(keys, old_order[p] as int, old_order[j] as int));
                if lex_less(keys[old_order[p] as int], keys[old_order[j] as int]) {
                    lemma_lex_less_transitive(keys[x], keys[old_order[p] as int], keys[old_order[j] as int]);
                }
            }
        }
        let order = old_order.insert(p, x as usize);
        assert forall|i: int, j: int| 0 <= i < j < order.len() implies precedes(keys, #[trigger] order[i] as int, #[trigger] order[j] as int) by {
            if i < p && j < p {
                assert(order[i] == old_order[i] && order[j] == old_order[j]);
            } else if i < p && j == p {
                assert(order[i] == old_order[i]);
            } else if i < p && j > p {
                assert(order[i] == old_order[i]);
                assert(order[j] == old_order[j - 1]);
                assert(precedes(keys, old_order[i] as int, old_order[j - 1] as int));
            } else if i == p {
                assert(order[j] == old_order[j - 1]);
            } else {
                assert(order[i] == old_order[i - 1] && order[j] == old_order[j - 1]);
            }
        }
        assert forall|i: int, j: int| 0 <= i < j < order.len() implies order[i] != order[j] by {
            if i < p && j < p {
                assert(order[i] == old_order[i] && order[j] == old_order[j]);
            } else if j == p {
                assert(order[i] == old_order[i]);
            } else if i == p {
                assert(order[j] == old_order[j - 1]);
            } else if i < p {
                assert(order[i] == old_order[i]);
                assert(order[j] == old_order[j - 1]);
            } else {
                assert(order[i] == old_order[i - 1] && order[j] == old_order[j - 1]);
            }
        }
        assert forall|k: int| 0 <= k < n implies #[trigger] occurs(order, k) by {
            if k == x {
                assert(order[p] == k);
            } else {
                assert(occurs(old_order, k));
                let i = choose|i: int| 0 <= i < old_order.len() && old_order[i] == k;
                if i < p {
                    assert(order[i] == k);
                } else {
                    assert(order[i + 1] == k);
                }
            }
        }
        assert forall|i: int| 0 <= i < order.len() implies #[trigger] order[i] < n by {
            if i < p {
                assert(order[i] == old_order[i]);
            } else if i > p {
                assert(order[i] == old_order[i - 1]);
            }
        }
        order
    }
}

/// Every list of keys that fits in memory has a stable sorted order, so
/// `spec_sorted_order` is one.
pub proof fn lemma_sorted_order_exists(keys: Seq<Seq<char>>)
    requires
        keys.len() <= usize::MAX,
    ensures
        is_sorted_order(keys, spec_sorted_order(keys)),
{
    let o = lemma_sorted_prefix_exists(keys, keys.len() as int);
    assert(is_sorted_order(keys, o));
}

/// Sorts indices by their keys, stably.
pub fn sorted_order(keys: &Vec<Vec<char>>) -> (order: Vec<usize>)
    ensures
        is_sorted_order(keys_view(keys@), order@),
        order@ == spec_sorted_order(keys_view(keys@)),
{
    let ghost kv = keys_view(keys@);
    let mut order: Vec<usize> = Vec::new();
    let mut x: usize = 0;
    while x < keys.len()
        invariant
            kv == keys_view(keys@),
            x <= keys@.len(),
            order@.len() == x,
            forall|i: int| 0 <= i < order@.len() ==> #[trigger] order@[i] < x,
            forall|k: int| 0 <= k < x ==> #[trigger] occurs(order@, k),
            forall|i: int, j: int| 0 <= i < j < order@.len() ==> order@[i] != order@[j],
            forall|i: int, j: int| 0 <= i < j < order@.len() ==> precedes(kv, #[trigger] order@[i] as int, #[trigger] order@[j] as int),
        decreases keys@.len() - x,
    {
        // Find the first position whose key is strictly greater than that of `x`.
        let mut p: usize = 0;
        while p < order.len() && !lex_less_exec(keys[x].as_slice(), keys[order[p]].as_slice())
            invariant
                kv == keys_view(keys@),
                x < keys@.len(),
                p <= order@.len(),
                forall|i: int| 0 <= i < order@.len() ==> #[trigger] order@[i] < x,
                forall|i: int| 0 <= i < p ==> !lex_less(kv[x as int], kv[#[trigger] order@[i] as int]),
            decreases order@.len() - p,
        {
            p += 1;
        }
        let ghost old_order = order@;
        proof {
            assert forall|i: int| 0 <= i < p implies #[trigger] precedes(kv, old_order[i] as int, x as int) by {
                lemma_lex_less_total(kv[x as int], kv[old_order[i] as int]);
            }
            assert forall|j: int| p <= j < old_order.len() implies #[trigger] precedes(kv, x as int, old_order[j] as int) by {
                assert(lex_less(kv[x as int], kv[old_order[p as int] as int]));
                if j > p {
                    assert(precedes(kv, old_order[p as int] as int, old_order[j] as int));
                    if lex_less(kv[old_order[p as int] as int], kv[old_order[j] as int]) {
                        lemma_lex_less_transitive(kv[x as int], kv[old_order[p as int] as int], kv[old_order[j] as int]);
                    }
                }
            }
        }
        order.insert(p, x);
        proof {
            assert forall|i: int, j: int| 0 <= i < j < order@.len() implies precedes(kv, #[trigger] order@[i] as int, #[trigger] order@[j] as int) by {
                if i < p && j < p {
                    assert(order@[i] == old_order[i] && order@[j] == old_order[j]);
                } else if i < p && j == p {
                } else if i < p && j > p {
                    assert(order@[j] == old_order[j - 1]);
                    assert(precedes(kv, old_order[i] as int, old_order[j - 1] as int));
                } else if i == p {
                    assert(order@[j] == old_order[j - 1]);
                } else {
                    assert(order@[i] == old_order[i - 1] && order@[j] == old_order[j - 1]);
                }
            }
            assert forall|i: int, j: int| 0 <= i < j < order@.len() implies order@[i] != order@[j] by {
                if i < p && j < p {
                } else if j == p {
                    assert(order@[i] == old_order[i]);
                } else if i == p {
                    assert(order@[j] == old_order[j - 1]);
                } else if i < p {
                    assert(order@[j] == old_order[j - 1]);
                } else {
                    assert(order@[i] == old_order[i - 1] && order@[j] == old_order[j - 1]);
                }
            }
            assert forall|k: int| 0 <= k < x + 1 implies #[trigger] occurs(order@, k) by {
                if k == x {
                    assert(order@[p as int] == k);
                } else {
                    assert(occurs(old_order, k));
                    let i = choose|i: int| 0 <= i < old_order.len() && old_order[i] == k;
                    if i < p {
                        assert(order@[i] == k);
                    } else {
                        assert(order@[i + 1] == k);
                    }
                }
            }
            assert forall|i: int| 0 <= i < order@.len() implies #[trigger] order@[i] < x + 1 by {
                if i < p {
                    assert(order@[i] == old_order[i]);
                } else if i > p {
                    assert(order@[i] == old_order[i - 1]);
                }
            }
        }
        x += 1;
    }
    proof { lemma_sorted_order_is_spec(kv, order@); }
    order
}


} // verus!
