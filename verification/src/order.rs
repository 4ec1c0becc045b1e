//! Orders and selections over integer keys.
//!
//! The schedulers rank tasks and actions by floating-point quantities. Those
//! are turned into the integer keys of `f64::total_cmp` (see
//! [`total_order_key`]); everything that is decided from the keys lives here.
use vstd::prelude::*;

verus! {

/// Index `a` comes strictly before index `b` in the stable order of the
/// indices of `keys`: by key (ascending, or descending when `descending`),
/// and equal keys by index.
pub open spec fn precedes(keys: Seq<i64>, descending: bool, a: int, b: int) -> bool {
    if keys[a] == keys[b] {
        a < b
    } else if descending {
        keys[a] > keys[b]
    } else {
        keys[a] < keys[b]
    }
}

/// `order` lists each index of `keys` exactly once, in the stable order.
pub open spec fn is_stable_order(keys: Seq<i64>, descending: bool, order: Seq<usize>) -> bool {
    &&& order.len() == keys.len()
    &&& forall|p: int| 0 <= p < order.len() ==> #[trigger] order[p] < keys.len()
    &&& forall|x: usize| x < keys.len() ==> order.contains(x)
    &&& forall|p: int, q: int|
        0 <= p < q < order.len() ==> precedes(keys, descending, #[trigger] order[p] as int, #[trigger] order[q] as int)
}

/// The key by which `f64::total_cmp` orders a float, from the float's bits
/// (`f64::to_bits`): the bits themselves when the sign bit is clear, and
/// `2^63 - 1 - bits` (a negative number) when it is set.
pub open spec fn spec_total_order_key(bits: u64) -> int {
    if bits < 0x8000_0000_0000_0000 {
        bits as int
    } else {
        0x7fff_ffff_ffff_ffff - bits
    }
}

/// Returns the key by which `f64::total_cmp` orders the float whose bits are
/// `bits`: two floats compare under `total_cmp` as their keys compare.
pub fn total_order_key(bits: u64) -> (key: i64)
    ensures
        key == spec_total_order_key(bits),
{
    if bits < 0x8000_0000_0000_0000 {
        bits as i64
    } else {
        let low: u64 = bits - 0x8000_0000_0000_0000;
        -1 - (low as i64)
    }
}

/// Float keys keep the order of the bits of non-negative floats, and place
/// every float with the sign bit set below every float without it.
pub proof fn lemma_total_order_key_monotone(a: u64, b: u64)
    ensures
        a < 0x8000_0000_0000_0000 && b < 0x8000_0000_0000_0000 ==> (a < b <==> spec_total_order_key(a) < spec_total_order_key(b)),
        a >= 0x8000_0000_0000_0000 && b < 0x8000_0000_0000_0000 ==> spec_total_order_key(a) < spec_total_order_key(b),
        a >= 0x8000_0000_0000_0000 && b >= 0x8000_0000_0000_0000 ==> (a < b <==> spec_total_order_key(b) < spec_total_order_key(a)),
        spec_total_order_key(a) == spec_total_order_key(b) <==> a == b,
{
}

fn key_before(a: i64, b: i64, descending: bool) -> (r: bool)
    ensures
        r == (if descending { a > b } else { a < b }),
{
    if descending {
        a > b
    } else {
        a < b
    }
}

/// Returns the indices `0..keys.len()` in the order of a stable sort by key:
/// ascending, or descending when `descending`; indices of equal keys keep
/// their relative order.
pub fn stable_order(keys: &Vec<i64>, descending: bool) -> (order: Vec<usize>)
    ensures
        is_stable_order(keys@, descending, order@),
{
    let n = keys.len();
    let mut order: Vec<usize> = Vec::new();
    let mut i: usize = 0;
    while i < n
        invariant
            n == keys.len(),
            i <= n,
            order.len() == i,
            forall|p: int| 0 <= p < order.len() ==> #[trigger] order@[p] < i,
            forall|x: usize| x < i ==> order@.contains(x),
            forall|p: int, q: int|
                0 <= p < q < order.len() ==> precedes(keys@, descending, #[trigger] order@[p] as int, #[trigger] order@[q] as int),
        decreases n - i,
    {
        let mut pos: usize = 0;
        while pos < order.len() && !key_before(keys[i], keys[order[pos]], descending)
            invariant
                n == keys.len(),
                i < n,
                order.len() == i,
                pos <= order.len(),
                forall|p: int| 0 <= p < order.len() ==> #[trigger] order@[p] < i,
                forall|q: int| 0 <= q < pos ==> precedes(keys@, descending, #[trigger] order@[q] as int, i as int),
            decreases order.len() - pos,
        {
            pos = pos + 1;
        }
        let ghost old_order = order@;
        proof {
            if pos < old_order.len() {
                assert forall|q: int| pos <= q < old_order.len() implies precedes(keys@, descending, i as int, #[trigger] old_order[q] as int) by {
                    if q > pos {
                        assert(precedes(keys@, descending, old_order[pos as int] as int, old_order[q] as int));
                    }
                }
            }
        }
        order.insert(pos, i);
        proof {
            let new_order = order@;
            assert(new_order == old_order.insert(pos as int, i));
            assert forall|x: usize| x < i + 1 implies new_order.contains(x) by {
                if x == i {
                    assert(new_order[pos as int] == i);
                } else {
                    assert(old_order.contains(x));
                    let k = choose|k: int| 0 <= k < old_order.len() && old_order[k] == x;
                    if k < pos {
                        assert(new_order[k] == x);
                    } else {
                        assert(new_order[k + 1] == x);
                    }
                }
            }
            assert forall|p: int, q: int|
                0 <= p < q < new_order.len() implies precedes(keys@, descending, #[trigger] new_order[p] as int, #[trigger] new_order[q] as int) by {
                if q < pos {
                    assert(new_order[p] == old_order[p] && new_order[q] == old_order[q]);
                } else if q == pos {
                    assert(new_order[p] == old_order[p]);
                } else if p < pos {
                    assert(new_order[p] == old_order[p] && new_order[q] == old_order[q - 1]);
                } else if p == pos {
                    assert(new_order[q] == old_order[q - 1]);
                } else {
                    assert(new_order[p] == old_order[p - 1] && new_order[q] == old_order[q - 1]);
                }
            }
        }
        i = i + 1;
    }
    order
}

proof fn lemma_stable_orders_agree_up_to(keys: Seq<i64>, descending: bool, o1: Seq<usize>, o2: Seq<usize>, p: int)
    requires
        is_stable_order(keys, descending, o1),
        is_stable_order(keys, descending, o2),
        0 <= p < o1.len(),
    ensures
        forall|g: int| 0 <= g <= p ==> o1[g] == o2[g],
    decreases p,
{
    if p > 0 {
        lemma_stable_orders_agree_up_to(keys, descending, o1, o2, p - 1);
    }
    let a = o1[p];
    let b = o2[p];
    assert(o2.contains(a));
    let q = choose|q: int| 0 <= q < o2.len() && o2[q] == a;
    assert(o1.contains(b));
    let r = choose|r: int| 0 <= r < o1.len() && o1[r] == b;
    if q < p {
        assert(o1[q] == a);
        assert(precedes(keys, descending, o1[q] as int, o1[p] as int));
    }
    if r < p {
        assert(o2[r] == b);
        assert(precedes(keys, descending, o2[r] as int, o2[p] as int));
    }
    if q > p && r > p {
        assert(precedes(keys, descending, o2[p] as int, o2[q] as int));
        assert(precedes(keys, descending, o1[p] as int, o1[r] as int));
    }
}

/// There is one stable order of the indices of `keys`: any two sequences that
/// both are one are equal.
pub proof fn lemma_stable_order_unique(keys: Seq<i64>, descending: bool, o1: Seq<usize>, o2: Seq<usize>)
    requires
        is_stable_order(keys, descending, o1),
        is_stable_order(keys, descending, o2),
    ensures
        o1 == o2,
{
    if o1.len() > 0 {
        lemma_stable_orders_agree_up_to(keys, descending, o1, o2, o1.len() - 1);
    }
    assert(o1 =~= o2);
}

/// `i` is the first position of the smallest of the present keys.
pub open spec fn is_first_min(keys: Seq<Option<i64>>, i: int) -> bool {
    &&& 0 <= i < keys.len()
    &&& keys[i] is Some
    &&& forall|j: int| 0 <= j < i && #[trigger] keys[j] is Some ==> keys[j]->0 > keys[i]->0
    &&& forall|j: int| i < j < keys.len() && #[trigger] keys[j] is Some ==> keys[j]->0 >= keys[i]->0
}

/// Returns the first position of the smallest present key, or `None` when no
/// key is present. A later key replaces the best one only when it is strictly
/// smaller.
pub fn first_min_index(keys: &Vec<Option<i64>>) -> (r: Option<usize>)
    ensures
        r is None <==> forall|j: int| 0 <= j < keys.len() ==> #[trigger] keys@[j] is None,
        r matches Some(i) ==> is_first_min(keys@, i as int),
{
    let mut best: Option<usize> = None;
    let mut best_key: i64 = 0;
    let mut j: usize = 0;
    while j < keys.len()
        invariant
            j <= keys.len(),
            best is None <==> forall|k: int| 0 <= k < j ==> #[trigger] keys@[k] is None,
            best matches Some(b) ==> {
                &&& b < j
                &&& keys@[b as int] == Some(best_key)
                &&& forall|k: int| 0 <= k < b && #[trigger] keys@[k] is Some ==> keys@[k]->0 > best_key
                &&& forall|k: int| b < k < j && #[trigger] keys@[k] is Some ==> keys@[k]->0 >= best_key
            },
        decreases keys.len() - j,
    {
        match keys[j] {
            Some(key) => {
                if best.is_none() || key < best_key {
                    best = Some(j);
                    best_key = key;
                }
            },
            None => {},
        }
        j = j + 1;
    }
    best
}

/// There is one first position of the smallest present key.
pub proof fn lemma_first_min_unique(keys: Seq<Option<i64>>, i: int, k: int)
    requires
        is_first_min(keys, i),
        is_first_min(keys, k),
    ensures
        i == k,
{
    if i < k {
        assert(keys[i] is Some);
    } else if k < i {
        assert(keys[k] is Some);
    }
}

} // verus!
