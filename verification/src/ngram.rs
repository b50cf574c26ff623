//! Counting the byte n-grams of a sample.
//!
//! A window of three bytes slides over the sample with stride one. Each
//! window counts once for the 1-gram, the 2-gram and the 3-gram that begin
//! at its first byte, so that the last bytes of a sample count for fewer
//! n-grams than the others. An n-gram is named by its bytes packed into one
//! integer, the first byte highest.

use std::collections::HashMap;
use vstd::prelude::*;

verus! {

broadcast use vstd::std_specs::hash::group_hash_axioms;

/// The number of windows of `data`.
pub open spec fn window_count(data: Seq<u8>) -> int {
    if data.len() >= 3 {
        data.len() - 2
    } else {
        0
    }
}

/// The number of n-grams that there are of `order`.
pub open spec fn gram_space(order: int) -> int {
    if order == 1 {
        0x100
    } else if order == 2 {
        0x1_0000
    } else {
        0x100_0000
    }
}

/// The n-gram of `order` that begins at byte `i` of `data`.
pub open spec fn gram(data: Seq<u8>, i: int, order: int) -> int {
    if order == 1 {
        data[i] as int
    } else if order == 2 {
        data[i] * 0x100 + data[i + 1]
    } else {
        data[i] * 0x1_0000 + data[i + 1] * 0x100 + data[i + 2]
    }
}

/// How often the n-gram `key` begins one of the first `n` windows of
/// `data`.
pub open spec fn occurrences(data: Seq<u8>, order: int, key: int, n: int) -> int
    decreases n,
{
    if n <= 0 {
        0
    } else {
        occurrences(data, order, key, n - 1) + if gram(data, n - 1, order) == key {
            1int
        } else {
            0int
        }
    }
}

/// The n-grams that begin one of the first `n` windows of `data`, each
/// once, in the order in which they first occur.
pub open spec fn first_seen(data: Seq<u8>, order: int, n: int) -> Seq<u32>
    decreases n,
{
    if n <= 0 {
        Seq::empty()
    } else if occurrences(data, order, gram(data, n - 1, order), n - 1) > 0 {
        first_seen(data, order, n - 1)
    } else {
        first_seen(data, order, n - 1).push(gram(data, n - 1, order) as u32)
    }
}

/// The count of every n-gram that begins one of the first `n` windows of
/// `data`.
pub open spec fn count_map(data: Seq<u8>, order: int, n: int) -> Map<u32, u64> {
    Map::new(
        |key: u32| occurrences(data, order, key as int, n) > 0,
        |key: u32| occurrences(data, order, key as int, n) as u64,
    )
}

/// An n-gram occurs at most once in each window.
pub proof fn lemma_occurrences_bounds(data: Seq<u8>, order: int, key: int, n: int)
    requires
        0 <= n,
    ensures
        0 <= occurrences(data, order, key, n) <= n,
    decreases n,
{
    if n > 0 {
        lemma_occurrences_bounds(data, order, key, n - 1);
    }
}

/// An n-gram is a number below the number of n-grams of its order.
pub proof fn lemma_gram_bounds(data: Seq<u8>, i: int, order: int)
    requires
        1 <= order <= 3,
        0 <= i,
        i + 2 < data.len(),
    ensures
        0 <= gram(data, i, order) < gram_space(order),
{
}

/// The n-gram of `order` that begins at byte `i` of `data`.
pub fn gram_at(data: &[u8], i: usize, order: u8) -> (key: u32)
    requires
        1 <= order <= 3,
        i + 2 < data@.len(),
    ensures
        key == gram(data@, i as int, order as int),
{
    if order == 1 {
        data[i] as u32
    } else if order == 2 {
        data[i] as u32 * 0x100 + data[i + 1] as u32
    } else {
        data[i] as u32 * 0x1_0000 + data[i + 1] as u32 * 0x100 + data[i + 2] as u32
    }
}

/// Counts the n-grams of `order` in `data`: the count of each that occurs,
/// and those that occur in the order in which they first do.
pub fn count_grams(data: &[u8], order: u8) -> (r: (HashMap<u32, u64>, Vec<u32>))
    requires
        1 <= order <= 3,
    ensures
        r.0@ == count_map(data@, order as int, window_count(data@)),
        r.1@ == first_seen(data@, order as int, window_count(data@)),
{
    let mut counts: HashMap<u32, u64> = HashMap::new();
    let mut keys: Vec<u32> = Vec::new();
    let n: usize = if data.len() >= 3 {
        data.len() - 2
    } else {
        0
    };
    let mut i: usize = 0;
    assert(counts@ =~= count_map(data@, order as int, 0));
    while i < n
        invariant
            1 <= order <= 3,
            i <= n,
            n == window_count(data@),
            counts@ == count_map(data@, order as int, i as int),
            keys@ == first_seen(data@, order as int, i as int),
        decreases n - i,
    {
        let key = gram_at(data, i, order);
        let ghost before = counts@;
        proof {
            lemma_occurrences_bounds(data@, order as int, key as int, i as int);
            lemma_gram_bounds(data@, i as int, order as int);
        }
        let seen: u64 = match counts.get(&key) {
            Some(c) => *c,
            None => 0,
        };
        assert(seen == occurrences(data@, order as int, key as int, i as int));
        if seen == 0 {
            keys.push(key);
        }
        counts.insert(key, seen + 1);
        proof {
            assert forall|k: u32| #[trigger]
                count_map(data@, order as int, i + 1).contains_key(k) implies counts@[k]
                == count_map(data@, order as int, i + 1)[k] by {
                lemma_occurrences_bounds(data@, order as int, k as int, i as int);
            }
            assert(counts@ =~= count_map(data@, order as int, i + 1));
        }
        i += 1;
    }
    (counts, keys)
}

/// The sum of the counts that the n-grams in `keys` have in the first `n`
/// windows of `data`.
pub open spec fn count_sum(keys: Seq<u32>, data: Seq<u8>, order: int, n: int) -> int
    decreases keys.len(),
{
    if keys.len() == 0 {
        0
    } else {
        count_sum(keys.drop_last(), data, order, n) + occurrences(
            data,
            order,
            keys.last() as int,
            n,
        )
    }
}

/// One more window adds one to the sum of the counts of distinct n-grams
/// where its n-gram is among them, and nothing where it is not.
pub proof fn lemma_count_sum_step(keys: Seq<u32>, data: Seq<u8>, order: int, n: int)
    requires
        1 <= order <= 3,
        1 <= n <= window_count(data),
        keys.no_duplicates(),
    ensures
        count_sum(keys, data, order, n) == count_sum(keys, data, order, n - 1) + if keys.contains(
            gram(data, n - 1, order) as u32,
        ) {
            1int
        } else {
            0int
        },
    decreases keys.len(),
{
    let g = gram(data, n - 1, order);
    lemma_gram_bounds(data, n - 1, order);
    if keys.len() > 0 {
        let rest = keys.drop_last();
        lemma_count_sum_step(rest, data, order, n);
        if keys.last() == g as u32 {
            assert(!rest.contains(g as u32)) by {
                if rest.contains(g as u32) {
                    let i = choose|i: int| 0 <= i < rest.len() && rest[i] == g as u32;
                    assert(keys[i] == keys[keys.len() - 1]);
                }
            }
            assert(keys.contains(g as u32)) by {
                assert(keys[keys.len() - 1] == g as u32);
            }
        } else {
            assert(keys.contains(g as u32) == rest.contains(g as u32)) by {
                if keys.contains(g as u32) {
                    let i = choose|i: int| 0 <= i < keys.len() && keys[i] == g as u32;
                    assert(rest[i] == g as u32);
                }
                if rest.contains(g as u32) {
                    let i = choose|i: int| 0 <= i < rest.len() && rest[i] == g as u32;
                    assert(keys[i] == g as u32);
                }
            }
        }
    }
}

/// The n-grams first seen are distinct, they are those that occur, and
/// their counts add up to the number of windows.
pub proof fn lemma_first_seen(data: Seq<u8>, order: int, n: int)
    requires
        1 <= order <= 3,
        0 <= n <= window_count(data),
    ensures
        first_seen(data, order, n).no_duplicates(),
        forall|key: u32|
            first_seen(data, order, n).contains(key) <==> #[trigger] occurrences(
                data,
                order,
                key as int,
                n,
            ) > 0,
        count_sum(first_seen(data, order, n), data, order, n) == n,
    decreases n,
{
    if n > 0 {
        lemma_first_seen(data, order, n - 1);
        let prev = first_seen(data, order, n - 1);
        let now = first_seen(data, order, n);
        let g = gram(data, n - 1, order);
        lemma_gram_bounds(data, n - 1, order);
        assert(prev.contains(g as u32) <==> occurrences(data, order, (g as u32) as int, n - 1)
            > 0);
        if occurrences(data, order, g, n - 1) > 0 {
            assert(now == prev);
            lemma_count_sum_step(prev, data, order, n);
            assert forall|key: u32|
                now.contains(key) <==> #[trigger] occurrences(data, order, key as int, n)
                    > 0 by {
                lemma_occurrences_bounds(data, order, key as int, n - 1);
                assert(prev.contains(key) <==> occurrences(data, order, key as int, n - 1) > 0);
            }
        } else {
            assert(now == prev.push(g as u32));
            assert(now.drop_last() =~= prev);
            assert(now.no_duplicates()) by {
                assert forall|i: int, j: int|
                    0 <= i < now.len() && 0 <= j < now.len() && i != j implies now[i]
                    != now[j] by {
                    if i < prev.len() && j < prev.len() {
                        assert(prev[i] != prev[j]);
                    } else if i < prev.len() {
                        assert(prev.contains(prev[i]));
                    } else {
                        assert(prev.contains(prev[j]));
                    }
                }
            }
            lemma_count_sum_step(prev, data, order, n);
            lemma_occurrences_bounds(data, order, g, n - 1);
            assert forall|key: u32|
                now.contains(key) <==> #[trigger] occurrences(data, order, key as int, n)
                    > 0 by {
                lemma_occurrences_bounds(data, order, key as int, n - 1);
                assert(prev.contains(key) <==> occurrences(data, order, key as int, n - 1) > 0);
                if now.contains(key) {
                    let i = choose|i: int| 0 <= i < now.len() && now[i] == key;
                    if i < prev.len() {
                        assert(prev[i] == key);
                        assert(prev.contains(key));
                    }
                }
                if occurrences(data, order, key as int, n) > 0 {
                    if key == g as u32 {
                        assert(now[now.len() - 1] == key);
                    } else {
                        let i = choose|i: int| 0 <= i < prev.len() && prev[i] == key;
                        assert(now[i] == key);
                    }
                }
            }
        }
    }
}

} // verus!
