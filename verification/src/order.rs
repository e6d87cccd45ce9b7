//! Ordering the positions of a list by the keys found there: smaller key
//! first, and among equal keys the earlier position first.

use vstd::prelude::*;

verus! {

/// Whether position `i` comes before position `j`: its key is smaller, or
/// the keys agree and `i` is the earlier position.
pub open spec fn precedes(keys: Seq<nat>, i: int, j: int) -> bool {
    keys[i] < keys[j] || (keys[i] == keys[j] && i < j)
}

/// Where a newcomer with key `key` joins `order`: right behind the last
/// entry whose key is not larger.
pub open spec fn landing(keys: Seq<nat>, order: Seq<int>, key: nat) -> int
    decreases order.len(),
{
    if order.len() == 0 {
        0
    } else if keys[order.last()] <= key {
        order.len() as int
    } else {
        landing(keys, order.drop_last(), key)
    }
}

/// The positions of `keys` in ascending order of key, equal keys by
/// ascending position. The last position joins the order of those before it.
pub open spec fn stable_order(keys: Seq<nat>) -> Seq<int>
    decreases keys.len(),
{
    if keys.len() == 0 {
        Seq::empty()
    } else {
        let earlier = stable_order(keys.drop_last());
        earlier.insert(landing(keys, earlier, keys.last()), keys.len() - 1)
    }
}

/// What makes `order` the stable ascending order of `keys`: it lists every
/// position once, and each entry comes before all that follow it.
pub open spec fn is_stable_order(keys: Seq<nat>, order: Seq<int>) -> bool {
    &&& order.len() == keys.len()
    &&& forall|p: int| 0 <= p < order.len() ==> 0 <= #[trigger] order[p] < keys.len()
    &&& forall|i: int| 0 <= i < keys.len() ==> #[trigger] order.contains(i)
    &&& forall|p: int, q: int|
        0 <= p < q < order.len() ==> precedes(keys, #[trigger] order[p], #[trigger] order[q])
}

/// Keys do not decrease along `order`.
pub open spec fn keys_ascend(keys: Seq<nat>, order: Seq<int>) -> bool {
    forall|p: int, q: int|
        0 <= p < q < order.len() ==> keys[#[trigger] order[p]] <= keys[#[trigger] order[q]]
}

/// Along an ascending order the landing place parts the keys: those in
/// front of it are not larger than `key`, those from it on are larger.
pub proof fn landing_parts_keys(keys: Seq<nat>, order: Seq<int>, key: nat)
    requires
        keys_ascend(keys, order),
    ensures
        0 <= landing(keys, order, key) <= order.len(),
        forall|p: int| 0 <= p < landing(keys, order, key) ==> keys[#[trigger] order[p]] <= key,
        forall|p: int|
            landing(keys, order, key) <= p < order.len() ==> keys[#[trigger] order[p]] > key,
    decreases order.len(),
{
    if order.len() != 0 && keys[order.last()] > key {
        let front = order.drop_last();
        landing_parts_keys(keys, front, key);
        assert forall|p: int| 0 <= p < landing(keys, order, key) implies keys[#[trigger] order[p]]
            <= key by {
            assert(order[p] == front[p]);
        }
        assert forall|p: int| landing(keys, order, key) <= p < order.len() implies keys[#[trigger] order[p]]
            > key by {
            if p < front.len() {
                assert(order[p] == front[p]);
            }
        }
    }
}

/// `stable_order` yields the stable ascending order of its keys.
pub proof fn stable_order_is_stable(keys: Seq<nat>)
    ensures
        is_stable_order(keys, stable_order(keys)),
    decreases keys.len(),
{
    if keys.len() != 0 {
        let front = keys.drop_last();
        let earlier = stable_order(front);
        let newcomer = keys.len() - 1;
        let at = landing(keys, earlier, keys.last());
        let order = stable_order(keys);
        stable_order_is_stable(front);
        landing_parts_keys(keys, earlier, keys.last());
        assert forall|i: int| 0 <= i < keys.len() implies #[trigger] order.contains(i) by {
            if i == newcomer {
                assert(order[at] == i);
            } else {
                assert(earlier.contains(i));
                let p = choose|p: int| 0 <= p < earlier.len() && earlier[p] == i;
                if p >= at {
                    assert(order[p + 1] == i);
                }
            }
        }
    }
}

/// Two stable orders of the same keys agree on their first `upto` entries.
proof fn stable_orders_agree_upto(keys: Seq<nat>, one: Seq<int>, other: Seq<int>, upto: int)
    requires
        is_stable_order(keys, one),
        is_stable_order(keys, other),
        0 <= upto <= keys.len(),
    ensures
        forall|p: int| 0 <= p < upto ==> one[p] == other[p],
    decreases upto,
{
    if upto > 0 {
        let at = upto - 1;
        stable_orders_agree_upto(keys, one, other, at);
        let x = one[at];
        let y = other[at];
        if x != y {
            assert(other.contains(x));
            assert(one.contains(y));
        }
    }
}

/// The keys have one stable ascending order, and `stable_order` is it.
pub proof fn stable_order_unique(keys: Seq<nat>, order: Seq<int>)
    requires
        is_stable_order(keys, order),
    ensures
        order == stable_order(keys),
{
    stable_order_is_stable(keys);
    stable_orders_agree_upto(keys, order, stable_order(keys), keys.len() as int);
}

/// The first `limit` positions of the stable ascending order of `keys`, or
/// all of them when there are fewer.
pub open spec fn closest(keys: Seq<nat>, limit: nat) -> Seq<int> {
    stable_order(keys).take(
        if limit <= keys.len() {
            limit as int
        } else {
            keys.len() as int
        },
    )
}

/// `closest` holds `limit` positions of `keys`, or as many as there are.
pub proof fn closest_length(keys: Seq<nat>, limit: nat)
    ensures
        closest(keys, limit).len() == if limit <= keys.len() {
            limit
        } else {
            keys.len()
        },
        forall|p: int|
            0 <= p < closest(keys, limit).len() ==> 0 <= #[trigger] closest(keys, limit)[p]
                < keys.len(),
{
    stable_order_is_stable(keys);
}

/// Keys never decrease along `closest`, and equal keys keep the order of
/// their positions.
pub proof fn closest_ascends(keys: Seq<nat>, limit: nat, p: int, q: int)
    requires
        0 <= p < q < closest(keys, limit).len(),
    ensures
        precedes(keys, closest(keys, limit)[p], closest(keys, limit)[q]),
        keys[closest(keys, limit)[p]] <= keys[closest(keys, limit)[q]],
{
    stable_order_is_stable(keys);
}

/// Whatever `closest` leaves out comes after everything it holds.
pub proof fn closest_leaves_out_later(keys: Seq<nat>, limit: nat, p: int, i: int)
    requires
        0 <= p < closest(keys, limit).len(),
        0 <= i < keys.len(),
        !closest(keys, limit).contains(i),
    ensures
        precedes(keys, closest(keys, limit)[p], i),
        keys[closest(keys, limit)[p]] <= keys[i],
{
    stable_order_is_stable(keys);
    let order = stable_order(keys);
    let kept = closest(keys, limit);
    assert(order.contains(i));
    let q = choose|q: int| 0 <= q < order.len() && order[q] == i;
    if q < kept.len() {
        assert(kept[q] == i);
    }
}

/// What makes `picked` the `limit` first positions of `keys`: it has the
/// length that the limit and the keys allow, each entry comes before all
/// that follow it, and before every position that it leaves out.
pub open spec fn is_closest(keys: Seq<nat>, limit: nat, picked: Seq<int>) -> bool {
    &&& picked.len() == if limit <= keys.len() {
        limit
    } else {
        keys.len()
    }
    &&& forall|p: int| 0 <= p < picked.len() ==> 0 <= #[trigger] picked[p] < keys.len()
    &&& forall|p: int, q: int|
        0 <= p < q < picked.len() ==> precedes(keys, #[trigger] picked[p], #[trigger] picked[q])
    &&& forall|p: int, i: int|
        0 <= p < picked.len() && 0 <= i < keys.len() && !#[trigger] picked.contains(i)
            ==> precedes(keys, #[trigger] picked[p], i)
}

/// `closest` yields the `limit` first positions of its keys.
pub proof fn closest_is_closest(keys: Seq<nat>, limit: nat)
    ensures
        is_closest(keys, limit, closest(keys, limit)),
{
    let picked = closest(keys, limit);
    closest_length(keys, limit);
    assert forall|p: int, q: int| 0 <= p < q < picked.len() implies precedes(
        keys,
        #[trigger] picked[p],
        #[trigger] picked[q],
    ) by {
        closest_ascends(keys, limit, p, q);
    }
    assert forall|p: int, i: int|
        0 <= p < picked.len() && 0 <= i < keys.len() && !#[trigger] picked.contains(
            i,
        ) implies precedes(keys, #[trigger] picked[p], i) by {
        closest_leaves_out_later(keys, limit, p, i);
    }
}

/// A list of `limit` first positions agrees with the stable ascending
/// order on its first `upto` entries.
proof fn closest_agrees_upto(keys: Seq<nat>, limit: nat, picked: Seq<int>, upto: int)
    requires
        is_closest(keys, limit, picked),
        0 <= upto <= picked.len(),
    ensures
        forall|p: int| 0 <= p < upto ==> picked[p] == stable_order(keys)[p],
    decreases upto,
{
    if upto > 0 {
        let at = upto - 1;
        let order = stable_order(keys);
        closest_agrees_upto(keys, limit, picked, at);
        stable_order_is_stable(keys);
        // Were the two entries different, each would come before the other.
        if picked[at] != order[at] {
            assert(order.contains(picked[at]));
            let q = choose|q: int| 0 <= q < order.len() && order[q] == picked[at];
            assert(precedes(keys, order[at], order[q])) by {
                if q < at {
                    assert(precedes(keys, picked[q], picked[at]));
                }
            }
            if picked.contains(order[at]) {
                let r = choose|r: int| 0 <= r < picked.len() && picked[r] == order[at];
                assert(precedes(keys, picked[at], picked[r])) by {
                    if r < at {
                        assert(precedes(keys, order[r], order[at]));
                    }
                }
            }
        }
    }
}

/// The keys have one list of `limit` first positions, and `closest` is it.
pub proof fn closest_unique(keys: Seq<nat>, limit: nat, picked: Seq<int>)
    requires
        is_closest(keys, limit, picked),
    ensures
        picked == closest(keys, limit),
{
    closest_agrees_upto(keys, limit, picked, picked.len() as int);
    stable_order_is_stable(keys);
}

/// How `closest` changes when one more key is appended: the newcomer joins
/// at `slot`, found by looking back from the end past every larger key, and
/// pushes the last entry out when the list was full.
proof fn closest_grows(keys: Seq<nat>, limit: nat, slot: int)
    requires
        keys.len() > 0,
        0 <= slot <= closest(keys.drop_last(), limit).len(),
        slot > 0 ==> keys[closest(keys.drop_last(), limit)[slot - 1]] <= keys.last(),
        forall|p: int|
            slot <= p < closest(keys.drop_last(), limit).len() ==> keys[#[trigger] closest(
                keys.drop_last(),
                limit,
            )[p]] > keys.last(),
    ensures
        closest(keys, limit) == if slot >= limit {
            closest(keys.drop_last(), limit)
        } else if closest(keys.drop_last(), limit).len() == limit {
            closest(keys.drop_last(), limit).drop_last().insert(slot, keys.len() - 1)
        } else {
            closest(keys.drop_last(), limit).insert(slot, keys.len() - 1)
        },
{
    // Keys ascend along the order of those before, so the newcomer's
    // landing place parts them; `slot` is that place, or the end of the
    // list where the landing place lies behind it.
    stable_order_is_stable(keys.drop_last());
    landing_parts_keys(keys, stable_order(keys.drop_last()), keys.last());
}

/// The keys that a list of distances stands for.
pub open spec fn as_keys(distances: Seq<usize>) -> Seq<nat> {
    distances.map_values(|d: usize| d as nat)
}

/// The positions that a list of indices stands for.
pub open spec fn as_positions(picked: Seq<usize>) -> Seq<int> {
    picked.map_values(|i: usize| i as int)
}

/// Picks the positions of the `limit` smallest distances, smallest first,
/// equal distances in the order of their positions.
pub fn select_closest(distances: &[usize], limit: usize) -> (picked: Vec<usize>)
    ensures
        as_positions(picked@) == closest(as_keys(distances@), limit as nat),
{
    let mut picked: Vec<usize> = Vec::new();
    let mut i: usize = 0;
    while i < distances.len()
        invariant
            i <= distances.len(),
            as_positions(picked@) == closest(as_keys(distances@).take(i as int), limit as nat),
        decreases distances.len() - i,
    {
        let key: usize = distances[i];
        proof {
            closest_length(as_keys(distances@).take(i as int), limit as nat);
            assert forall|p: int| 0 <= p < picked@.len() implies #[trigger] picked@[p] < i by {
                assert(as_positions(picked@)[p] == picked@[p]);
            }
        }
        let mut slot: usize = picked.len();
        while slot > 0 && distances[picked[slot - 1]] > key
            invariant
                slot <= picked@.len(),
                i < distances@.len(),
                forall|p: int| 0 <= p < picked@.len() ==> #[trigger] picked@[p] < i,
                forall|p: int|
                    slot <= p < picked@.len() ==> distances@[#[trigger] picked@[p] as int] > key,
            decreases slot,
        {
            slot -= 1;
        }
        proof {
            let keys = as_keys(distances@).take(i + 1);
            assert(keys.drop_last() =~= as_keys(distances@).take(i as int));
            closest_grows(keys, limit as nat, slot as int);
        }
        if slot < limit {
            if picked.len() == limit {
                picked.pop();
            }
            picked.insert(slot, i);
        }
        i += 1;
    }
    proof {
        assert(as_keys(distances@).take(i as int) =~= as_keys(distances@));
    }
    picked
}

} // verus!
