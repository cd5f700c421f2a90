//! Orders by rank, highest first.

use vstd::prelude::*;

verus! {

/// `a` comes before `b`: it has the higher key, or the same one and stands first.
pub open spec fn precedes(keys: Seq<i64>, a: int, b: int) -> bool {
    keys[a] > keys[b] || (keys[a] == keys[b] && a < b)
}

/// `order` holds the first `n` places, each once, by descending key.
pub open spec fn is_ranking(order: Seq<usize>, keys: Seq<i64>, n: int) -> bool {
    &&& order.len() == n
    &&& forall|i: int| 0 <= i < n ==> #[trigger] order[i] < n
    &&& forall|i: int, j: int|
        0 <= i < j < n ==> precedes(keys, #[trigger] order[i] as int, #[trigger] order[j] as int)
    &&& forall|v: usize| v < n ==> #[trigger] order.contains(v)
}

/// There is only one ranking.
pub proof fn law_ranking_is_unique(
    a: Seq<usize>,
    b: Seq<usize>,
    keys: Seq<i64>,
    n: int,
)
    requires
        is_ranking(a, keys, n),
        is_ranking(b, keys, n),
    ensures
        a == b,
{
    assert forall|i: int| 0 <= i < n implies a[i] == b[i] by {
        lemma_same_order_upto(a, b, keys, n, i);
    }
    assert(a =~= b);
}

proof fn lemma_same_order_upto(
    a: Seq<usize>,
    b: Seq<usize>,
    keys: Seq<i64>,
    n: int,
    i: int,
)
    requires
        is_ranking(a, keys, n),
        is_ranking(b, keys, n),
        0 <= i < n,
    ensures
        forall|j: int| 0 <= j <= i ==> a[j] == b[j],
    decreases i,
{
    if i > 0 {
        lemma_same_order_upto(a, b, keys, n, i - 1);
    }
    let x = a[i];
    let y = b[i];
    assert(b.contains(x));
    let p = choose|p: int| 0 <= p < b.len() && b[p] == x;
    assert(a.contains(y));
    let q = choose|q: int| 0 <= q < a.len() && a[q] == y;
    if p < i {
        assert(precedes(keys, a[p] as int, a[i] as int));
    }
    if q < i {
        assert(precedes(keys, b[q] as int, b[i] as int));
    }
    if p > i && q > i {
        assert(precedes(keys, b[i] as int, b[p] as int));
        assert(precedes(keys, a[i] as int, a[q] as int));
    }
}

/// The places of the keys by descending key; ties keep their input order.
pub fn rank_descending(keys: &Vec<i64>) -> (r: Vec<usize>)
    ensures
        is_ranking(r@, keys@, keys@.len() as int),
{
    let mut order: Vec<usize> = Vec::new();
    let mut v: usize = 0;
    while v < keys.len()
        invariant
            v <= keys.len(),
            is_ranking(order@, keys@, v as int),
        decreases keys.len() - v,
    {
        let mut p: usize = 0;
        while p < order.len() && keys[order[p]] >= keys[v]
            invariant
                v < keys.len(),
                is_ranking(order@, keys@, v as int),
                p <= order.len(),
                forall|i: int|
                    0 <= i < p ==> keys@[#[trigger] order@[i] as int]
                        >= keys@[v as int],
            decreases order.len() - p,
        {
            p = p + 1;
        }
        let ghost before = order@;
        order.insert(p, v);
        proof {
            let after = order@;
            assert(after.len() == v + 1);
            assert(after =~= before.insert(p as int, v));
            assert forall|i: int, j: int| 0 <= i < j < v + 1 implies precedes(
                keys@,
                #[trigger] after[i] as int,
                #[trigger] after[j] as int,
            ) by {
                let bi = if i < p {
                    i
                } else {
                    i - 1
                };
                let bj = if j < p {
                    j
                } else {
                    j - 1
                };
                if i != p {
                    assert(after[i] == before[bi]);
                }
                if j != p {
                    assert(after[j] == before[bj]);
                }
                if i == p {
                    assert(keys@[before[p as int] as int] < keys@[v as int]);
                    if bj > p {
                        assert(precedes(keys@, before[p as int] as int, before[bj] as int));
                    }
                } else if j != p {
                    assert(precedes(keys@, before[bi] as int, before[bj] as int));
                }
            }
            assert forall|u: usize| u < v + 1 implies #[trigger] after.contains(u) by {
                if u == v {
                    assert(after[p as int] == u);
                } else {
                    assert(before.contains(u));
                    let i = choose|i: int| 0 <= i < before.len() && before[i] == u;
                    if i < p {
                        assert(after[i] == u);
                    } else {
                        assert(after[i + 1] == u);
                    }
                }
            }
        }
        v = v + 1;
    }
    order
}

/// In a ranking a higher key stands before a lower one, equal keys stand in the order of
/// their places, and every place stands there once.
pub proof fn law_higher_keys_come_first(order: Seq<usize>, keys: Seq<i64>, i: int, j: int)
    requires
        is_ranking(order, keys, keys.len() as int),
        0 <= i < j < keys.len(),
    ensures
        order.len() == keys.len(),
        order[i] < keys.len(),
        order[j] < keys.len(),
        order[i] != order[j],
        keys[order[i] as int] >= keys[order[j] as int],
        keys[order[i] as int] == keys[order[j] as int] ==> order[i] < order[j],
        i <= usize::MAX ==> order.contains(i as usize),
{
    assert(precedes(keys, order[i] as int, order[j] as int));
}

} // verus!
