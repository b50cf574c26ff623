//! A map from byte ranges to lists, kept in the order in which the ranges
//! were first seen.

use std::ops::Range;
use vstd::prelude::*;

verus! {

/// A map from byte ranges to non-empty lists. No range occurs twice, and
/// the entries stand in the order in which their ranges were first added.
#[derive(Debug)]
pub struct RangeMap<T> {
    pub entries: Vec<(Range<usize>, Vec<T>)>,
}

/// The place of `range` among `entries`, where it has one.
pub open spec fn place_of_range<T>(
    entries: Seq<(Range<usize>, Vec<T>)>,
    range: Range<usize>,
) -> int {
    choose|i: int| 0 <= i < entries.len() && entries[i].0 == range
}

/// Whether no range occurs twice in `entries` and no list is empty.
pub open spec fn distinct<T>(entries: Seq<(Range<usize>, Vec<T>)>) -> bool {
    &&& forall|i: int, j: int|
        0 <= i < j < entries.len() ==> (#[trigger] entries[i]).0 != (#[trigger] entries[j]).0
    &&& forall|i: int| 0 <= i < entries.len() ==> (#[trigger] entries[i]).1@.len() > 0
}

/// What `entries` map each range to.
pub open spec fn range_map_of<T>(entries: Seq<(Range<usize>, Vec<T>)>) -> Map<
    Range<usize>,
    Seq<T>,
> {
    Map::new(
        |range: Range<usize>| exists|i: int| 0 <= i < entries.len() && entries[i].0 == range,
        |range: Range<usize>| entries[place_of_range(entries, range)].1@,
    )
}

/// The list that `m` holds for `range`: empty where it holds none.
pub open spec fn list_at<T>(m: Map<Range<usize>, Seq<T>>, range: Range<usize>) -> Seq<T> {
    if m.contains_key(range) {
        m[range]
    } else {
        Seq::empty()
    }
}

/// Among distinct entries a range has one place only.
pub proof fn lemma_range_place_unique<T>(entries: Seq<(Range<usize>, Vec<T>)>, i: int)
    requires
        distinct(entries),
        0 <= i < entries.len(),
    ensures
        place_of_range(entries, entries[i].0) == i,
        range_map_of(entries).contains_key(entries[i].0),
        range_map_of(entries)[entries[i].0] == entries[i].1@,
{
    let j = place_of_range(entries, entries[i].0);
    if j < i {
        assert(entries[j].0 != entries[i].0);
    } else if i < j {
        assert(entries[i].0 != entries[j].0);
    }
}

impl<T> View for RangeMap<T> {
    type V = Map<Range<usize>, Seq<T>>;

    open spec fn view(&self) -> Map<Range<usize>, Seq<T>> {
        range_map_of(self.entries@)
    }
}

impl<T> RangeMap<T> {
    /// Whether the entries are distinct.
    pub open spec fn wf(&self) -> bool {
        distinct(self.entries@)
    }

    /// Whether no list is empty.
    pub open spec fn filled(&self) -> bool {
        forall|i: int| 0 <= i < self.entries@.len() ==> (#[trigger] self.entries@[i]).1@.len() > 0
    }

    /// Whether no list is empty.
    pub fn is_filled(&self) -> (r: bool)
        ensures
            r == self.filled(),
    {
        let mut i: usize = 0;
        while i < self.entries.len()
            invariant
                i <= self.entries@.len(),
                forall|k: int| 0 <= k < i ==> (#[trigger] self.entries@[k]).1@.len() > 0,
            decreases self.entries@.len() - i,
        {
            if self.entries[i].1.len() == 0 {
                return false;
            }
            i += 1;
        }
        true
    }

    /// The ranges, in the order in which they were first added.
    pub open spec fn ranges(&self) -> Seq<Range<usize>> {
        Seq::new(self.entries@.len(), |i: int| self.entries@[i].0)
    }

    /// The empty map.
    pub fn new() -> (m: Self)
        ensures
            m.wf(),
            m@ == Map::<Range<usize>, Seq<T>>::empty(),
            m.ranges() == Seq::<Range<usize>>::empty(),
    {
        let m = RangeMap { entries: Vec::new() };
        assert(m@ =~= Map::<Range<usize>, Seq<T>>::empty());
        assert(m.ranges() =~= Seq::<Range<usize>>::empty());
        m
    }

    /// Appends `item` to the list of `range`, which begins with it where
    /// the map held no list for `range`; the range is then the last.
    pub fn push(&mut self, range: &Range<usize>, item: T)
        requires
            old(self).wf(),
        ensures
            final(self).wf(),
            final(self)@ == old(self)@.insert(*range, list_at(old(self)@, *range).push(item)),
            final(self).ranges() == if old(self)@.contains_key(*range) {
                old(self).ranges()
            } else {
                old(self).ranges().push(*range)
            },
    {
        let ghost before = self.entries@;
        let ghost target = list_at(range_map_of(before), *range).push(item);
        let mut i: usize = self.entries.len();
        while i > 0 && !(self.entries[i - 1].0.start == range.start && self.entries[i - 1].0.end
            == range.end)
            invariant
                i <= self.entries@.len(),
                self.entries@ == before,
                forall|j: int| i <= j < before.len() ==> (#[trigger] before[j]).0 != *range,
            decreases i,
        {
            i -= 1;
        }
        if i > 0 {
            let at: usize = i - 1;
            self.entries[at].1.push(item);
            let ghost after = self.entries@;
            proof {
                assert(after.len() == before.len());
                assert forall|j: int| 0 <= j < after.len() implies (#[trigger] after[j]).0
                    == before[j].0 by {}
                assert(distinct(after));
                lemma_range_place_unique(before, at as int);
                lemma_range_place_unique(after, at as int);
                assert forall|r: Range<usize>|
                    range_map_of(after).contains_key(r) == range_map_of(before).insert(
                        *range,
                        target,
                    ).contains_key(r) by {
                    if range_map_of(after).contains_key(r) {
                        let j = place_of_range(after, r);
                        assert(before[j].0 == r);
                    }
                    if range_map_of(before).contains_key(r) {
                        let j = place_of_range(before, r);
                        assert(after[j].0 == r);
                    }
                }
                assert forall|r: Range<usize>| #[trigger]
                    range_map_of(after).contains_key(r) implies range_map_of(after)[r]
                    == range_map_of(before).insert(*range, target)[r] by {
                    let j = place_of_range(after, r);
                    lemma_range_place_unique(after, j);
                    lemma_range_place_unique(before, j);
                }
                assert(range_map_of(after) =~= range_map_of(before).insert(*range, target));
                assert(self.ranges() =~= Seq::new(before.len(), |i: int| before[i].0));
            }
        } else {
            let mut list: Vec<T> = Vec::new();
            list.push(item);
            self.entries.push((range.start..range.end, list));
            let ghost after = self.entries@;
            proof {
                assert(list@ =~= Seq::<T>::empty().push(item));
                assert(!range_map_of(before).contains_key(*range)) by {
                    if range_map_of(before).contains_key(*range) {
                        let j = place_of_range(before, *range);
                        assert(before[j].0 != *range);
                    }
                }
                assert forall|j: int, k: int| 0 <= j < k < after.len() implies (
                #[trigger] after[j]).0 != (#[trigger] after[k]).0 by {
                    assert(after[j] == before[j]);
                    if k < before.len() {
                        assert(after[k] == before[k]);
                    }
                }
                assert forall|j: int| 0 <= j < after.len() implies (#[trigger] after[j]).1@.len()
                    > 0 by {
                    if j < before.len() {
                        assert(after[j] == before[j]);
                    }
                }
                assert(distinct(after));
                lemma_range_place_unique(after, before.len() as int);
                assert forall|r: Range<usize>|
                    range_map_of(after).contains_key(r) == range_map_of(before).insert(
                        *range,
                        target,
                    ).contains_key(r) by {
                    if range_map_of(after).contains_key(r) {
                        let j = place_of_range(after, r);
                        if j < before.len() {
                            assert(before[j].0 == r);
                        }
                    }
                    if range_map_of(before).contains_key(r) {
                        let j = place_of_range(before, r);
                        assert(after[j].0 == r);
                    }
                }
                assert forall|r: Range<usize>| #[trigger]
                    range_map_of(after).contains_key(r) implies range_map_of(after)[r]
                    == range_map_of(before).insert(*range, target)[r] by {
                    let j = place_of_range(after, r);
                    lemma_range_place_unique(after, j);
                    if j < before.len() {
                        assert(after[j] == before[j]);
                        lemma_range_place_unique(before, j);
                    }
                }
                assert(range_map_of(after) =~= range_map_of(before).insert(*range, target));
                assert(self.ranges() =~= Seq::new(before.len(), |i: int| before[i].0).push(
                    *range,
                ));
            }
        }
    }
}

} // verus!
