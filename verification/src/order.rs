//! The stable ascending order of a list of keys.

use vstd::prelude::*;

verus! {

/// `order` with the place `x` added behind every place whose key is not
/// greater than the key of `x`.
pub open spec fn insert_place(order: Seq<int>, keys: Seq<i128>, x: int) -> Seq<int>
    decreases order.len(),
{
    if order.len() == 0 {
        seq![x]
    } else if keys[order.last()] <= keys[x] {
        order.push(x)
    } else {
        insert_place(order.drop_last(), keys, x).push(order.last())
    }
}

/// The places of `keys` in the ascending order of their keys; places with
/// equal keys keep their order.
pub open spec fn stable_order(keys: Seq<i128>) -> Seq<int>
    decreases keys.len(),
{
    if keys.len() == 0 {
        Seq::empty()
    } else {
        insert_place(stable_order(keys.drop_last()), keys, keys.len() - 1)
    }
}

/// Whether `order` holds places of `keys`, ascending by key and, among
/// equal keys, by place.
pub open spec fn ascending(order: Seq<int>, keys: Seq<i128>) -> bool {
    &&& forall|a: int| 0 <= a < order.len() ==> 0 <= #[trigger] order[a] < keys.len()
    &&& forall|a: int, b: int|
        0 <= a < b < order.len() ==> keys[#[trigger] order[a]] < keys[#[trigger] order[b]] || (
        keys[order[a]] == keys[order[b]] && order[a] < order[b])
}

/// Adding a place at a position behind which every key is greater, and
/// before which the nearest is not, is `insert_place`.
pub proof fn lemma_insert_place_at(order: Seq<int>, keys: Seq<i128>, x: int, pos: int)
    requires
        0 <= pos <= order.len(),
        forall|j: int| pos <= j < order.len() ==> keys[#[trigger] order[j]] > keys[x],
        pos > 0 ==> keys[order[pos - 1]] <= keys[x],
    ensures
        insert_place(order, keys, x) == order.insert(pos, x),
    decreases order.len(),
{
    if order.len() == 0 {
        assert(order.insert(0, x) =~= seq![x]);
    } else if pos == order.len() {
        assert(order.insert(pos, x) =~= order.push(x));
    } else {
        assert(keys[order[order.len() - 1]] > keys[x]);
        let rest = order.drop_last();
        assert forall|j: int| pos <= j < rest.len() implies keys[#[trigger] rest[j]] > keys[x] by {
            assert(rest[j] == order[j]);
        }
        lemma_insert_place_at(rest, keys, x, pos);
        assert(rest.insert(pos, x).push(order.last()) =~= order.insert(pos, x));
    }
}

/// Adding a later place to an ascending order gives an ascending order of
/// one place more, which holds the new place and the old ones.
pub proof fn lemma_insert_place_ascending(order: Seq<int>, keys: Seq<i128>, x: int)
    requires
        ascending(order, keys),
        0 <= x < keys.len(),
        forall|a: int| 0 <= a < order.len() ==> #[trigger] order[a] < x,
    ensures
        ascending(insert_place(order, keys, x), keys),
        insert_place(order, keys, x).len() == order.len() + 1,
        forall|a: int|
            0 <= a < order.len() + 1 ==> (#[trigger] insert_place(order, keys, x)[a]) == x
                || order.contains(insert_place(order, keys, x)[a]),
    decreases order.len(),
{
    let r = insert_place(order, keys, x);
    if order.len() == 0 {
    } else if keys[order.last()] <= keys[x] {
        assert forall|a: int, b: int| 0 <= a < b < r.len() implies keys[#[trigger] r[a]]
            < keys[#[trigger] r[b]] || (keys[r[a]] == keys[r[b]] && r[a] < r[b]) by {
            if b == order.len() {
                assert(r[a] == order[a]);
                if a < order.len() - 1 {
                    assert(keys[order[a]] <= keys[order[order.len() - 1]]);
                }
            } else {
                assert(r[a] == order[a] && r[b] == order[b]);
            }
        }
        assert forall|a: int| 0 <= a < order.len() + 1 implies (#[trigger] r[a]) == x
            || order.contains(r[a]) by {
            if a < order.len() {
                assert(order[a] == r[a]);
            }
        }
    } else {
        let rest = order.drop_last();
        let last = order.last();
        assert(ascending(rest, keys)) by {
            assert forall|a: int| 0 <= a < rest.len() implies 0 <= #[trigger] rest[a]
                < keys.len() by {
                assert(rest[a] == order[a]);
            }
            assert forall|a: int, b: int| 0 <= a < b < rest.len() implies keys[#[trigger] rest[a]]
                < keys[#[trigger] rest[b]] || (keys[rest[a]] == keys[rest[b]] && rest[a]
                < rest[b]) by {
                assert(rest[a] == order[a] && rest[b] == order[b]);
            }
        }
        assert forall|a: int| 0 <= a < rest.len() implies #[trigger] rest[a] < x by {
            assert(rest[a] == order[a]);
        }
        lemma_insert_place_ascending(rest, keys, x);
        let inner = insert_place(rest, keys, x);
        assert(r == inner.push(last));
        assert(order[order.len() - 1] == last);
        assert forall|a: int| 0 <= a < r.len() implies 0 <= #[trigger] r[a] < keys.len() by {
            if a < inner.len() {
                assert(r[a] == inner[a]);
            }
        }
        assert forall|a: int, b: int| 0 <= a < b < r.len() implies keys[#[trigger] r[a]]
            < keys[#[trigger] r[b]] || (keys[r[a]] == keys[r[b]] && r[a] < r[b]) by {
            if b == inner.len() {
                assert(r[a] == inner[a]);
                if inner[a] != x {
                    assert(rest.contains(inner[a]));
                    let j = choose|j: int| 0 <= j < rest.len() && rest[j] == inner[a];
                    assert(order[j] == inner[a]);
                    assert(keys[order[j]] < keys[order[order.len() - 1]] || (keys[order[j]]
                        == keys[order[order.len() - 1]] && order[j] < order[order.len() - 1]));
                }
            } else {
                assert(r[a] == inner[a] && r[b] == inner[b]);
            }
        }
        assert forall|a: int| 0 <= a < order.len() + 1 implies (#[trigger] r[a]) == x
            || order.contains(r[a]) by {
            if a < inner.len() {
                assert(r[a] == inner[a]);
                if inner[a] != x {
                    let j = choose|j: int| 0 <= j < rest.len() && rest[j] == inner[a];
                    assert(order[j] == inner[a]);
                }
            } else {
                assert(order[order.len() - 1] == r[a]);
            }
        }
    }
}

/// The stable order holds every place of `keys` once, ascending by key;
/// places with equal keys stand in their own order.
pub proof fn lemma_stable_order(keys: Seq<i128>)
    ensures
        stable_order(keys).len() == keys.len(),
        ascending(stable_order(keys), keys),
    decreases keys.len(),
{
    if keys.len() > 0 {
        let rest = keys.drop_last();
        lemma_stable_order(rest);
        let before = stable_order(rest);
        assert(ascending(before, keys)) by {
            assert forall|a: int, b: int| 0 <= a < b < before.len() implies keys[
            #[trigger] before[a]] < keys[#[trigger] before[b]] || (keys[before[a]]
                == keys[before[b]] && before[a] < before[b]) by {
                assert(rest[before[a]] == keys[before[a]]);
                assert(rest[before[b]] == keys[before[b]]);
            }
        }
        lemma_insert_place_ascending(before, keys, keys.len() - 1);
    }
}

/// The places of `keys` in the stable ascending order of their keys.
pub fn stable_order_of(keys: &Vec<i128>) -> (order: Vec<usize>)
    ensures
        order@.len() == keys@.len(),
        forall|a: int| 0 <= a < order@.len() ==> (#[trigger] order@[a]) as int == stable_order(
            keys@,
        )[a],
{
    let mut order: Vec<usize> = Vec::new();
    let mut i: usize = 0;
    while i < keys.len()
        invariant
            i <= keys@.len(),
            order@.len() == i,
            forall|a: int|
                0 <= a < i ==> (#[trigger] order@[a]) as int == stable_order(
                    keys@.take(i as int),
                )[a],
            forall|a: int| 0 <= a < i ==> (#[trigger] order@[a]) < i,
        decreases keys@.len() - i,
    {
        let ghost prefix = keys@.take(i + 1);
        let ghost before = stable_order(keys@.take(i as int));
        proof {
            assert(prefix.drop_last() =~= keys@.take(i as int));
            lemma_stable_order(keys@.take(i as int));
        }
        let mut pos: usize = i;
        while pos > 0 && keys[order[pos - 1]] > keys[i]
            invariant
                pos <= i,
                i < keys@.len(),
                order@.len() == i,
                before.len() == i,
                forall|a: int| 0 <= a < i ==> (#[trigger] order@[a]) as int == before[a],
                forall|a: int| 0 <= a < i ==> (#[trigger] order@[a]) < i,
                prefix == keys@.take(i + 1),
                forall|j: int| pos <= j < i ==> prefix[#[trigger] before[j]] > prefix[i as int],
            decreases pos,
        {
            proof {
                assert(order@[pos - 1] as int == before[pos - 1]);
            }
            pos -= 1;
        }
        proof {
            if pos > 0 {
                assert(order@[pos - 1] as int == before[pos - 1]);
            }
            lemma_insert_place_at(before, prefix, i as int, pos as int);
        }
        let ghost old_order = order@;
        order.insert(pos, i);
        proof {
            let now = stable_order(prefix);
            assert(now == before.insert(pos as int, i as int));
            assert forall|a: int| 0 <= a < i + 1 implies (#[trigger] order@[a]) as int
                == now[a] by {
                if a < pos {
                    assert(order@[a] == old_order[a]);
                } else if a > pos {
                    assert(order@[a] == old_order[a - 1]);
                }
            }
            assert forall|a: int| 0 <= a < i + 1 implies (#[trigger] order@[a]) < i + 1 by {
                if a < pos {
                    assert(order@[a] == old_order[a]);
                } else if a > pos {
                    assert(order@[a] == old_order[a - 1]);
                }
            }
        }
        i += 1;
    }
    proof {
        assert(keys@.take(i as int) =~= keys@);
    }
    order
}

} // verus!
