//! A map from architecture names to lists, kept in the order of the names.

use crate::names::{
    lemma_name_lt_irreflexive, lemma_name_lt_total, lemma_name_lt_transitive, name_lt, str_eq,
    str_lt,
};
use vstd::prelude::*;

verus! {

/// A map from architecture names to non-empty lists. The entries stand in
/// the strict order of their names, so that no name occurs twice and the
/// place of a name is its number.
#[derive(Debug)]
pub struct ArchMap<T> {
    pub entries: Vec<(String, Vec<T>)>,
}

/// The place of `name` among `entries`, where it has one.
pub open spec fn place_of<T>(entries: Seq<(String, Vec<T>)>, name: Seq<char>) -> int {
    choose|i: int| 0 <= i < entries.len() && entries[i].0@ == name
}

/// Whether `entries` stand in the strict order of their names, each with a
/// list that is not empty.
pub open spec fn ordered<T>(entries: Seq<(String, Vec<T>)>) -> bool {
    &&& forall|i: int, j: int|
        0 <= i < j < entries.len() ==> name_lt(#[trigger] entries[i].0@, #[trigger] entries[j].0@)
    &&& forall|i: int| 0 <= i < entries.len() ==> (#[trigger] entries[i]).1@.len() > 0
}

/// What `entries` map each name to.
pub open spec fn map_of<T>(entries: Seq<(String, Vec<T>)>) -> Map<Seq<char>, Seq<T>> {
    Map::new(
        |name: Seq<char>| exists|i: int| 0 <= i < entries.len() && entries[i].0@ == name,
        |name: Seq<char>| entries[place_of(entries, name)].1@,
    )
}

/// The list that `m` holds for `name`: empty where it holds none.
pub open spec fn list_of<T>(m: Map<Seq<char>, Seq<T>>, name: Seq<char>) -> Seq<T> {
    if m.contains_key(name) {
        m[name]
    } else {
        Seq::empty()
    }
}

/// In ordered entries a name has one place only.
pub proof fn lemma_place_unique<T>(entries: Seq<(String, Vec<T>)>, i: int)
    requires
        ordered(entries),
        0 <= i < entries.len(),
    ensures
        place_of(entries, entries[i].0@) == i,
        map_of(entries).contains_key(entries[i].0@),
        map_of(entries)[entries[i].0@] == entries[i].1@,
{
    let j = place_of(entries, entries[i].0@);
    lemma_name_lt_irreflexive(entries[i].0@);
    if j < i {
        assert(name_lt(entries[j].0@, entries[i].0@));
    } else if i < j {
        assert(name_lt(entries[i].0@, entries[j].0@));
    }
}

/// Ordered entries that map the same names hold the same names at their
/// first `n` places.
pub proof fn lemma_names_agree_upto<S, T>(
    a: Seq<(String, Vec<S>)>,
    b: Seq<(String, Vec<T>)>,
    n: int,
)
    requires
        ordered(a),
        ordered(b),
        forall|name: Seq<char>| map_of(a).contains_key(name) == map_of(b).contains_key(name),
        0 <= n <= a.len(),
        n <= b.len(),
    ensures
        forall|i: int| 0 <= i < n ==> (#[trigger] a[i]).0@ == b[i].0@,
    decreases n,
{
    if n > 0 {
        lemma_names_agree_upto(a, b, n - 1);
        let k = n - 1;
        let x = a[k].0@;
        let y = b[k].0@;
        if x != y {
            lemma_name_lt_total(x, y);
            lemma_name_lt_irreflexive(x);
            lemma_name_lt_irreflexive(y);
            if name_lt(x, y) {
                assert(map_of(a).contains_key(x));
                assert(map_of(b).contains_key(x));
                let j = place_of(b, x);
                if j < k {
                    assert(a[j].0@ == b[j].0@);
                    assert(name_lt(a[j].0@, a[k].0@));
                } else if j > k {
                    assert(name_lt(b[k].0@, b[j].0@));
                    lemma_name_lt_transitive(x, y, x);
                }
            } else {
                assert(map_of(b).contains_key(y));
                assert(map_of(a).contains_key(y));
                let j = place_of(a, y);
                if j < k {
                    assert(a[j].0@ == b[j].0@);
                    assert(name_lt(b[j].0@, b[k].0@));
                } else if j > k {
                    assert(name_lt(a[k].0@, a[j].0@));
                    lemma_name_lt_transitive(y, x, y);
                }
            }
        }
    }
}

/// Ordered entries that map the same names hold the same names at the
/// same places, and to equal lists if the maps are equal.
pub proof fn lemma_names_agree<S, T>(a: Seq<(String, Vec<S>)>, b: Seq<(String, Vec<T>)>)
    requires
        ordered(a),
        ordered(b),
        forall|name: Seq<char>| map_of(a).contains_key(name) == map_of(b).contains_key(name),
    ensures
        a.len() == b.len(),
        forall|i: int| 0 <= i < a.len() ==> (#[trigger] a[i]).0@ == b[i].0@,
{
    let n = if a.len() <= b.len() {
        a.len() as int
    } else {
        b.len() as int
    };
    lemma_names_agree_upto(a, b, n);
    if a.len() < b.len() {
        let y = b[n].0@;
        assert(map_of(b).contains_key(y));
        assert(map_of(a).contains_key(y));
        let j = place_of(a, y);
        assert(a[j].0@ == b[j].0@);
        assert(name_lt(b[j].0@, b[n].0@));
        lemma_name_lt_irreflexive(y);
    } else if b.len() < a.len() {
        let x = a[n].0@;
        assert(map_of(a).contains_key(x));
        assert(map_of(b).contains_key(x));
        let j = place_of(b, x);
        assert(a[j].0@ == b[j].0@);
        assert(name_lt(a[j].0@, a[n].0@));
        lemma_name_lt_irreflexive(x);
    }
}

impl<T> View for ArchMap<T> {
    type V = Map<Seq<char>, Seq<T>>;

    open spec fn view(&self) -> Map<Seq<char>, Seq<T>> {
        map_of(self.entries@)
    }
}

impl<T> ArchMap<T> {
    /// Whether the entries are in order.
    pub open spec fn wf(&self) -> bool {
        ordered(self.entries@)
    }

    /// The names, in their order.
    pub open spec fn names(&self) -> Seq<Seq<char>> {
        Seq::new(self.entries@.len(), |i: int| self.entries@[i].0@)
    }

    /// Whether this map and `other` hold the same names, and for each name
    /// the same list.
    pub open spec fn agrees_with(&self, other: &Self) -> bool {
        &&& self.names() == other.names()
        &&& self@ == other@
    }

    /// The empty map.
    pub fn new() -> (m: Self)
        ensures
            m.wf(),
            m@ == Map::<Seq<char>, Seq<T>>::empty(),
            m.entries@.len() == 0,
    {
        let m = ArchMap { entries: Vec::new() };
        assert(m@ =~= Map::<Seq<char>, Seq<T>>::empty());
        m
    }

    /// Appends `item` to the list of `arch`, which begins with it where
    /// the map held no list for `arch`.
    pub fn push(&mut self, arch: &String, item: T)
        requires
            old(self).wf(),
        ensures
            final(self).wf(),
            final(self)@ == old(self)@.insert(arch@, list_of(old(self)@, arch@).push(item)),
    {
        let ghost before = self.entries@;
        let mut i: usize = 0;
        while i < self.entries.len() && str_lt(self.entries[i].0.as_str(), arch.as_str())
            invariant
                i <= self.entries@.len(),
                self.entries@ == before,
                forall|j: int| 0 <= j < i ==> name_lt(#[trigger] before[j].0@, arch@),
            decreases self.entries@.len() - i,
        {
            i += 1;
        }
        if i < self.entries.len() && str_eq(self.entries[i].0.as_str(), arch.as_str()) {
            self.entries[i].1.push(item);
            let ghost after = self.entries@;
            proof {
                assert(after.len() == before.len());
                assert forall|j: int| 0 <= j < after.len() implies (#[trigger] after[j]).0@
                    == before[j].0@ by {}
                assert(ordered(after));
                lemma_place_unique(before, i as int);
                lemma_place_unique(after, i as int);
                assert forall|name: Seq<char>|
                    map_of(after).contains_key(name) == map_of(before).insert(
                        arch@,
                        list_of(map_of(before), arch@).push(item),
                    ).contains_key(name) by {
                    if map_of(after).contains_key(name) {
                        let j = place_of(after, name);
                        assert(before[j].0@ == name);
                    }
                    if map_of(before).contains_key(name) {
                        let j = place_of(before, name);
                        assert(after[j].0@ == name);
                    }
                }
                assert forall|name: Seq<char>| #[trigger]
                    map_of(after).contains_key(name) implies map_of(after)[name] == map_of(
                    before,
                ).insert(arch@, list_of(map_of(before), arch@).push(item))[name] by {
                    let j = place_of(after, name);
                    lemma_place_unique(after, j);
                    lemma_place_unique(before, j);
                }
                assert(map_of(after) =~= map_of(before).insert(
                    arch@,
                    list_of(map_of(before), arch@).push(item),
                ));
            }
        } else {
            let mut list: Vec<T> = Vec::new();
            list.push(item);
            self.entries.insert(i, (arch.clone(), list));
            let ghost after = self.entries@;
            proof {
                assert(list@ =~= Seq::<T>::empty().push(item));
                if i < before.len() {
                    lemma_name_lt_total(before[i as int].0@, arch@);
                }
                assert forall|j: int| i <= j < before.len() implies name_lt(
                    arch@,
                    #[trigger] before[j].0@,
                ) by {
                    if i < j {
                        lemma_name_lt_transitive(arch@, before[i as int].0@, before[j].0@);
                    }
                }
                assert forall|j: int, k: int| 0 <= j < k < after.len() implies name_lt(
                    #[trigger] after[j].0@,
                    #[trigger] after[k].0@,
                ) by {
                    if j < i && k > i {
                        assert(after[j] == before[j]);
                        assert(after[k] == before[k - 1]);
                    } else if j < i && k < i {
                        assert(after[j] == before[j]);
                        assert(after[k] == before[k]);
                    } else if j > i {
                        assert(after[j] == before[j - 1]);
                        assert(after[k] == before[k - 1]);
                    } else if j == i {
                        assert(after[k] == before[k - 1]);
                    } else {
                        assert(after[j] == before[j]);
                    }
                }
                assert forall|j: int| 0 <= j < after.len() implies (#[trigger] after[j]).1@.len()
                    > 0 by {
                    if j < i {
                        assert(after[j] == before[j]);
                    } else if j > i {
                        assert(after[j] == before[j - 1]);
                    }
                }
                assert(ordered(after));
                assert(!map_of(before).contains_key(arch@)) by {
                    if map_of(before).contains_key(arch@) {
                        let j = place_of(before, arch@);
                        lemma_name_lt_irreflexive(arch@);
                        if j < i {
                            assert(name_lt(before[j].0@, arch@));
                        } else {
                            assert(name_lt(arch@, before[j].0@));
                        }
                    }
                }
                lemma_place_unique(after, i as int);
                assert forall|name: Seq<char>|
                    map_of(after).contains_key(name) == map_of(before).insert(
                        arch@,
                        list_of(map_of(before), arch@).push(item),
                    ).contains_key(name) by {
                    if map_of(after).contains_key(name) {
                        let j = place_of(after, name);
                        if j < i {
                            assert(before[j].0@ == name);
                        } else if j > i {
                            assert(before[j - 1].0@ == name);
                        }
                    }
                    if map_of(before).contains_key(name) {
                        let j = place_of(before, name);
                        if j < i {
                            assert(after[j].0@ == name);
                        } else {
                            assert(after[j + 1].0@ == name);
                        }
                    }
                }
                assert forall|name: Seq<char>| #[trigger]
                    map_of(after).contains_key(name) implies map_of(after)[name] == map_of(
                    before,
                ).insert(arch@, list_of(map_of(before), arch@).push(item))[name] by {
                    let j = place_of(after, name);
                    lemma_place_unique(after, j);
                    if j < i {
                        assert(after[j] == before[j]);
                        lemma_place_unique(before, j);
                    } else if j > i {
                        assert(after[j] == before[j - 1]);
                        lemma_place_unique(before, j - 1);
                    }
                }
                assert(map_of(after) =~= map_of(before).insert(
                    arch@,
                    list_of(map_of(before), arch@).push(item),
                ));
            }
        }
    }
}

/// A map in order is determined by what it maps: two such maps that map
/// the same names to the same lists hold them at the same places.
pub proof fn lemma_map_determines_entries<T>(a: ArchMap<T>, b: ArchMap<T>)
    requires
        a.wf(),
        b.wf(),
        a@ == b@,
    ensures
        a.agrees_with(&b),
        a.entries@.len() == b.entries@.len(),
        forall|i: int|
            0 <= i < a.entries@.len() ==> (#[trigger] a.entries@[i]).1@ == b.entries@[i].1@,
{
    lemma_names_agree(a.entries@, b.entries@);
    assert(a.names() =~= b.names());
    assert forall|i: int| 0 <= i < a.entries@.len() implies (#[trigger] a.entries@[i]).1@
        == b.entries@[i].1@ by {
        lemma_place_unique(a.entries@, i);
        lemma_place_unique(b.entries@, i);
    }
}

} // verus!
