//! The processed result of a detection: per range the closest architecture
//! of each n-gram order with mean and variance, the final label of each
//! range, and the ranges of each architecture that won one.

use crate::arch_map::{lemma_map_determines_entries, list_of, ArchMap};
use crate::detection::{named, named_lists, DetectionResult};
use crate::heuristic::{final_range_result, label_view, spec_final_range_result, RangeResult};
use crate::names::str_eq;
use crate::range_map::{lemma_range_place_unique, RangeMap};
use crate::stats::{calculate_mean, calculate_variance, spec_mean, spec_variance};
use std::ops::Range;
use vstd::prelude::*;

verus! {

/// The smallest divergence, 0.1 in millionths, that counts for the global
/// minimum: what lies below it is a sample matched against itself.
pub const MIN_KL: i32 = 100_000;

/// The number of bytes in `range`.
pub open spec fn range_len(range: Range<usize>) -> int {
    if range.end >= range.start {
        range.end - range.start
    } else {
        0
    }
}

/// The divergences of a list of named divergences.
pub open spec fn divs_of(list: Seq<(String, i32)>) -> Seq<i32> {
    Seq::new(list.len(), |j: int| list[j].1)
}

/// The place of the lowest of `divs`; of several that are lowest, the
/// first.
pub open spec fn first_min(divs: Seq<i32>) -> int
    decreases divs.len(),
{
    if divs.len() <= 1 {
        0
    } else {
        let before = first_min(divs.drop_last());
        if divs.last() < divs[before] {
            divs.len() - 1
        } else {
            before
        }
    }
}

/// `first_min` is a place in `divs`, nothing in `divs` is lower than what
/// stands there, and everything before it is higher.
pub proof fn lemma_first_min(divs: Seq<i32>)
    requires
        divs.len() > 0,
    ensures
        0 <= first_min(divs) < divs.len(),
        forall|j: int| 0 <= j < divs.len() ==> divs[first_min(divs)] <= #[trigger] divs[j],
        forall|j: int| 0 <= j < first_min(divs) ==> divs[first_min(divs)] < #[trigger] divs[j],
    decreases divs.len(),
{
    if divs.len() > 1 {
        lemma_first_min(divs.drop_last());
        let before = first_min(divs.drop_last());
        assert forall|j: int| 0 <= j < divs.len() implies divs[first_min(divs)]
            <= #[trigger] divs[j] by {
            if j < divs.len() - 1 {
                assert(divs.drop_last()[j] == divs[j]);
            }
        }
        assert forall|j: int| 0 <= j < first_min(divs) implies divs[first_min(divs)]
            < #[trigger] divs[j] by {
            assert(divs.drop_last()[j] == divs[j]);
        }
    }
}

/// Whether `res` is the summary of `list`: the first architecture of
/// lowest divergence with that divergence, and the mean and the variance
/// of all divergences in the list.
pub open spec fn summarizes(res: RangeResult, list: Seq<(String, i32)>) -> bool {
    let divs = divs_of(list);
    &&& res.arch@ == list[first_min(divs)].0@
    &&& res.div == divs[first_min(divs)]
    &&& res.range_mean == spec_mean(divs)
    &&& res.range_var == spec_variance(divs, spec_mean(divs))
}

/// The closest architecture of one range, with the mean and the variance
/// of the divergences of all architectures.
pub fn range_result(list: &Vec<(String, i32)>) -> (res: RangeResult)
    requires
        list@.len() > 0,
    ensures
        summarizes(res, list@),
{
    let mut divs: Vec<i32> = Vec::new();
    let mut best: usize = 0;
    let mut k: usize = 0;
    while k < list.len()
        invariant
            k <= list@.len(),
            list@.len() > 0,
            divs@ == divs_of(list@).take(k as int),
            best == first_min(divs@),
            k > 0 ==> best < k,
            k == 0 ==> best == 0,
        decreases list@.len() - k,
    {
        let d = list[k].1;
        proof {
            assert(divs@.push(d) =~= divs_of(list@).take(k + 1));
            assert(divs@.push(d).drop_last() =~= divs@);
            if k > 0 {
                lemma_first_min(divs@);
            }
        }
        if k > 0 && d < divs[best] {
            best = k;
        }
        divs.push(d);
        k += 1;
    }
    proof {
        assert(divs@ =~= divs_of(list@));
    }
    let mean = calculate_mean(divs.as_slice());
    let var = calculate_variance(divs.as_slice(), mean);
    RangeResult { arch: list[best].0.clone(), div: list[best].1, range_mean: mean, range_var: var }
}

/// Whether `max` is the highest divergence held in `entries`: none where
/// they hold no divergence.
pub open spec fn is_max_div(
    max: Option<i32>,
    entries: Seq<(String, Vec<(Range<usize>, i32)>)>,
) -> bool {
    match max {
        Some(m) => {
            &&& exists|i: int, j: int|
                0 <= i < entries.len() && 0 <= j < entries[i].1@.len() && (
                #[trigger] entries[i].1@[j]).1 == m
            &&& forall|i: int, j: int|
                0 <= i < entries.len() && 0 <= j < entries[i].1@.len() ==> (
                #[trigger] entries[i].1@[j]).1 <= m
        },
        None => forall|i: int| 0 <= i < entries.len() ==> (#[trigger] entries[i]).1@.len() == 0,
    }
}

/// Whether `min` is the lowest divergence held in `entries` that is not
/// below `floor`: none where they hold no such divergence.
pub open spec fn is_min_div_from(
    min: Option<i32>,
    entries: Seq<(String, Vec<(Range<usize>, i32)>)>,
    floor: i32,
) -> bool {
    match min {
        Some(m) => {
            &&& m >= floor
            &&& exists|i: int, j: int|
                0 <= i < entries.len() && 0 <= j < entries[i].1@.len() && (
                #[trigger] entries[i].1@[j]).1 == m
            &&& forall|i: int, j: int|
                0 <= i < entries.len() && 0 <= j < entries[i].1@.len() && (
                #[trigger] entries[i].1@[j]).1 >= floor ==> m <= entries[i].1@[j].1
        },
        None => forall|i: int, j: int|
            0 <= i < entries.len() && 0 <= j < entries[i].1@.len() ==> (
            #[trigger] entries[i].1@[j]).1 < floor,
    }
}

/// The highest divergence in `map`, and the lowest that is not below
/// `floor`.
pub fn extremes(map: &ArchMap<(Range<usize>, i32)>, floor: i32) -> (r: (Option<i32>, Option<i32>))
    ensures
        is_max_div(r.0, map.entries@),
        is_min_div_from(r.1, map.entries@, floor),
{
    let mut max: Option<i32> = None;
    let mut min: Option<i32> = None;
    let mut i: usize = 0;
    while i < map.entries.len()
        invariant
            i <= map.entries@.len(),
            is_max_div(max, map.entries@.take(i as int)),
            is_min_div_from(min, map.entries@.take(i as int), floor),
        decreases map.entries@.len() - i,
    {
        let list = &map.entries[i].1;
        let ghost done = map.entries@.take(i as int);
        let mut j: usize = 0;
        while j < list.len()
            invariant
                i < map.entries@.len(),
                j <= list@.len(),
                list@ == map.entries@[i as int].1@,
                done == map.entries@.take(i as int),
                match max {
                    Some(m) => {
                        &&& (exists|a: int, b: int|
                            0 <= a < done.len() && 0 <= b < done[a].1@.len() && (
                            #[trigger] done[a].1@[b]).1 == m) || (exists|b: int|
                            0 <= b < j && (#[trigger] list@[b]).1 == m)
                        &&& forall|a: int, b: int|
                            0 <= a < done.len() && 0 <= b < done[a].1@.len() ==> (
                            #[trigger] done[a].1@[b]).1 <= m
                        &&& forall|b: int| 0 <= b < j ==> (#[trigger] list@[b]).1 <= m
                    },
                    None => j == 0 && forall|a: int|
                        0 <= a < done.len() ==> (#[trigger] done[a]).1@.len() == 0,
                },
                match min {
                    Some(m) => {
                        &&& m >= floor
                        &&& (exists|a: int, b: int|
                            0 <= a < done.len() && 0 <= b < done[a].1@.len() && (
                            #[trigger] done[a].1@[b]).1 == m) || (exists|b: int|
                            0 <= b < j && (#[trigger] list@[b]).1 == m)
                        &&& forall|a: int, b: int|
                            0 <= a < done.len() && 0 <= b < done[a].1@.len() && (
                            #[trigger] done[a].1@[b]).1 >= floor ==> m <= done[a].1@[b].1
                        &&& forall|b: int|
                            0 <= b < j && (#[trigger] list@[b]).1 >= floor ==> m <= list@[b].1
                    },
                    None => {
                        &&& forall|a: int, b: int|
                            0 <= a < done.len() && 0 <= b < done[a].1@.len() ==> (
                            #[trigger] done[a].1@[b]).1 < floor
                        &&& forall|b: int| 0 <= b < j ==> (#[trigger] list@[b]).1 < floor
                    },
                },
            decreases list@.len() - j,
        {
            let d = list[j].1;
            max = match max {
                Some(m) => if d > m {
                    Some(d)
                } else {
                    Some(m)
                },
                None => Some(d),
            };
            if d >= floor {
                min = match min {
                    Some(m) => if d < m {
                        Some(d)
                    } else {
                        Some(m)
                    },
                    None => Some(d),
                };
            }
            j += 1;
        }
        proof {
            let next = map.entries@.take(i + 1);
            assert(next.len() == i + 1);
            assert forall|a: int| 0 <= a < i implies #[trigger] next[a] == done[a] by {}
            assert(next[i as int] == map.entries@[i as int]);
            match max {
                Some(m) => {
                    if exists|a: int, b: int|
                        0 <= a < done.len() && 0 <= b < done[a].1@.len() && (
                        #[trigger] done[a].1@[b]).1 == m {
                        let (a, b) = choose|a: int, b: int|
                            0 <= a < done.len() && 0 <= b < done[a].1@.len() && (
                            #[trigger] done[a].1@[b]).1 == m;
                        assert(next[a].1@[b].1 == m);
                    } else {
                        let b = choose|b: int| 0 <= b < j && (#[trigger] list@[b]).1 == m;
                        assert(next[i as int].1@[b].1 == m);
                    }
                    assert forall|a: int, b: int|
                        0 <= a < next.len() && 0 <= b < next[a].1@.len() implies (
                    #[trigger] next[a].1@[b]).1 <= m by {
                        if a < i {
                            assert(done[a].1@[b].1 <= m);
                        } else {
                            assert(list@[b].1 <= m);
                        }
                    }
                },
                None => {
                    assert forall|a: int| 0 <= a < next.len() implies (#[trigger] next[a]).1@.len()
                        == 0 by {
                        if a < i {
                            assert(done[a].1@.len() == 0);
                        }
                    }
                },
            }
            match min {
                Some(m) => {
                    if exists|a: int, b: int|
                        0 <= a < done.len() && 0 <= b < done[a].1@.len() && (
                        #[trigger] done[a].1@[b]).1 == m {
                        let (a, b) = choose|a: int, b: int|
                            0 <= a < done.len() && 0 <= b < done[a].1@.len() && (
                            #[trigger] done[a].1@[b]).1 == m;
                        assert(next[a].1@[b].1 == m);
                    } else {
                        let b = choose|b: int| 0 <= b < j && (#[trigger] list@[b]).1 == m;
                        assert(next[i as int].1@[b].1 == m);
                    }
                    assert forall|a: int, b: int|
                        0 <= a < next.len() && 0 <= b < next[a].1@.len() && (
                        #[trigger] next[a].1@[b]).1 >= floor implies m <= next[a].1@[b].1 by {
                        if a < i {
                            assert(done[a].1@[b].1 >= floor);
                        } else {
                            assert(list@[b].1 >= floor);
                        }
                    }
                },
                None => {
                    assert forall|a: int, b: int|
                        0 <= a < next.len() && 0 <= b < next[a].1@.len() implies (
                    #[trigger] next[a].1@[b]).1 < floor by {
                        if a < i {
                            assert(done[a].1@[b].1 < floor);
                        } else {
                            assert(list@[b].1 < floor);
                        }
                    }
                },
            }
        }
        i += 1;
    }
    proof {
        assert(map.entries@.take(i as int) =~= map.entries@);
    }
    (max, min)
}

/// Whether `results` hold, range for range and in the same order, the
/// summary of each list of `entries`.
pub open spec fn summarize_all(
    results: Seq<(Range<usize>, RangeResult)>,
    entries: Seq<(Range<usize>, Vec<(String, i32)>)>,
) -> bool {
    &&& results.len() == entries.len()
    &&& forall|i: int|
        0 <= i < results.len() ==> (#[trigger] results[i]).0 == entries[i].0 && summarizes(
            results[i].1,
            entries[i].1@,
        )
}

/// The summary of every range of `map`.
pub fn range_results(map: &RangeMap<(String, i32)>) -> (results: Vec<
    (Range<usize>, RangeResult),
>)
    requires
        map.filled(),
    ensures
        summarize_all(results@, map.entries@),
{
    let mut results: Vec<(Range<usize>, RangeResult)> = Vec::new();
    let mut i: usize = 0;
    while i < map.entries.len()
        invariant
            i <= map.entries@.len(),
            map.filled(),
            summarize_all(results@, map.entries@.take(i as int)),
        decreases map.entries@.len() - i,
    {
        let range = &map.entries[i].0;
        let res = range_result(&map.entries[i].1);
        let ghost before = results@;
        results.push((range.start..range.end, res));
        proof {
            let next = map.entries@.take(i + 1);
            assert forall|k: int| 0 <= k < results@.len() implies (#[trigger] results@[k]).0
                == next[k].0 && summarizes(results@[k].1, next[k].1@) by {
                if k < i {
                    assert(results@[k] == before[k]);
                    assert(next[k] == map.entries@.take(i as int)[k]);
                }
            }
        }
        i += 1;
    }
    proof {
        assert(map.entries@.take(i as int) =~= map.entries@);
    }
    results
}

/// The ranges that `finals` label with `arch`, in their order.
pub open spec fn labelled(finals: Seq<(Range<usize>, Option<String>)>, arch: Seq<char>) -> Seq<
    Range<usize>,
>
    decreases finals.len(),
{
    if finals.len() == 0 {
        Seq::empty()
    } else if label_view(finals.last().1) == Some(arch) {
        labelled(finals.drop_last(), arch).push(finals.last().0)
    } else {
        labelled(finals.drop_last(), arch)
    }
}

/// The labelled ranges grouped by label: each architecture that labels a
/// range, with its ranges.
pub open spec fn group_by_label(finals: Seq<(Range<usize>, Option<String>)>) -> Map<
    Seq<char>,
    Seq<Range<usize>>,
> {
    Map::new(
        |arch: Seq<char>| labelled(finals, arch).len() > 0,
        |arch: Seq<char>| labelled(finals, arch),
    )
}

/// A further range without a label adds nothing to the groups; one with a
/// label is added to the list of that label.
pub proof fn lemma_group_by_label_push(
    finals: Seq<(Range<usize>, Option<String>)>,
    item: (Range<usize>, Option<String>),
)
    ensures
        group_by_label(finals.push(item)) == match item.1 {
            Some(arch) => group_by_label(finals).insert(
                arch@,
                list_of(group_by_label(finals), arch@).push(item.0),
            ),
            None => group_by_label(finals),
        },
{
    let next = finals.push(item);
    assert(next.drop_last() =~= finals);
    match item.1 {
        Some(arch) => {
            assert(list_of(group_by_label(finals), arch@) =~= labelled(finals, arch@));
            assert(group_by_label(next) =~= group_by_label(finals).insert(
                arch@,
                list_of(group_by_label(finals), arch@).push(item.0),
            ));
        },
        None => {
            assert(group_by_label(next) =~= group_by_label(finals));
        },
    }
}

/// Whether `finals` hold, range for range and in the same order, the label
/// that the heuristic gives to the two summaries of the range.
pub open spec fn decide_all(
    finals: Seq<(Range<usize>, Option<String>)>,
    bg: Seq<(Range<usize>, RangeResult)>,
    tg: Seq<(Range<usize>, RangeResult)>,
) -> bool {
    &&& finals.len() == bg.len()
    &&& forall|i: int|
        0 <= i < finals.len() ==> (#[trigger] finals[i]).0 == bg[i].0 && label_view(finals[i].1)
            == spec_final_range_result(bg[i].1, tg[i].1)
}

/// Whether `names` are the names of `map`, in their order.
pub open spec fn names_of<T>(names: Seq<String>, map: ArchMap<T>) -> bool {
    &&& names.len() == map.entries@.len()
    &&& forall|i: int| 0 <= i < names.len() ==> (#[trigger] names[i])@ == map.entries@[i].0@
}

/// The names of `map`, in their order: the place of a name is the number
/// of its architecture.
pub fn arch_names<T>(map: &ArchMap<T>) -> (names: Vec<String>)
    ensures
        names_of(names@, *map),
{
    let mut names: Vec<String> = Vec::new();
    let mut i: usize = 0;
    while i < map.entries.len()
        invariant
            i <= map.entries@.len(),
            names@.len() == i,
            forall|k: int| 0 <= k < i ==> (#[trigger] names@[k])@ == map.entries@[k].0@,
        decreases map.entries@.len() - i,
    {
        names.push(map.entries[i].0.clone());
        i += 1;
    }
    names
}

/// The processed result of a detection.
#[derive(Debug)]
pub struct ProcessedDetectionResult {
    /// The number of bytes of the first range; 0 where there is no range.
    pub win_sz: usize,
    /// The highest 2-gram divergence of all architectures and ranges.
    pub max_kl_bg: Option<i32>,
    /// The lowest 2-gram divergence that is not below `MIN_KL`.
    pub min_kl_bg: Option<i32>,
    /// The highest 3-gram divergence of all architectures and ranges.
    pub max_kl_tg: Option<i32>,
    /// The lowest 3-gram divergence that is not below `MIN_KL`.
    pub min_kl_tg: Option<i32>,
    /// Per range the closest architecture by 2-grams.
    pub range_to_result_bg: Vec<(Range<usize>, RangeResult)>,
    /// Per range the closest architecture by 3-grams.
    pub range_to_result_tg: Vec<(Range<usize>, RangeResult)>,
    /// The architectures in the order of their names; the place of one is
    /// its number.
    pub idx_to_arch: Vec<String>,
    pub kl_arch_to_range_bg: ArchMap<(Range<usize>, i32)>,
    pub kl_arch_to_range_tg: ArchMap<(Range<usize>, i32)>,
    /// Per range its label, if it has one.
    pub range_to_final_result: Vec<(Range<usize>, Option<String>)>,
    /// Per architecture that labels a range, the ranges that it labels.
    pub arch_to_final_ranges: ArchMap<Range<usize>>,
}

/// Whether two lists hold the same names.
pub open spec fn same_names(a: Seq<String>, b: Seq<String>) -> bool {
    &&& a.len() == b.len()
    &&& forall|i: int| 0 <= i < a.len() ==> (#[trigger] a[i])@ == b[i]@
}

/// Whether two lists hold the same summaries for the same ranges.
pub open spec fn same_results(
    a: Seq<(Range<usize>, RangeResult)>,
    b: Seq<(Range<usize>, RangeResult)>,
) -> bool {
    &&& a.len() == b.len()
    &&& forall|i: int|
        0 <= i < a.len() ==> {
            &&& (#[trigger] a[i]).0 == b[i].0
            &&& a[i].1.arch@ == b[i].1.arch@
            &&& a[i].1.div == b[i].1.div
            &&& a[i].1.range_mean == b[i].1.range_mean
            &&& a[i].1.range_var == b[i].1.range_var
        }
}

/// Whether two lists hold the same labels for the same ranges.
pub open spec fn same_labels(
    a: Seq<(Range<usize>, Option<String>)>,
    b: Seq<(Range<usize>, Option<String>)>,
) -> bool {
    &&& a.len() == b.len()
    &&& forall|i: int|
        0 <= i < a.len() ==> (#[trigger] a[i]).0 == b[i].0 && label_view(a[i].1) == label_view(
            b[i].1,
        )
}

impl ProcessedDetectionResult {
    /// Whether this is the processed form of the raw result `res_ex`.
    pub open spec fn processes(&self, res_ex: DetectionResult) -> bool {
        &&& self.win_sz == if res_ex.kl_bg_range_to_arch.entries@.len() == 0 {
            0
        } else {
            range_len(res_ex.kl_bg_range_to_arch.entries@[0].0)
        }
        &&& names_of(self.idx_to_arch@, res_ex.kl_bg_arch_to_range)
        &&& is_max_div(self.max_kl_bg, res_ex.kl_bg_arch_to_range.entries@)
        &&& is_min_div_from(self.min_kl_bg, res_ex.kl_bg_arch_to_range.entries@, MIN_KL)
        &&& is_max_div(self.max_kl_tg, res_ex.kl_tg_arch_to_range.entries@)
        &&& is_min_div_from(self.min_kl_tg, res_ex.kl_tg_arch_to_range.entries@, MIN_KL)
        &&& summarize_all(self.range_to_result_bg@, res_ex.kl_bg_range_to_arch.entries@)
        &&& summarize_all(self.range_to_result_tg@, res_ex.kl_tg_range_to_arch.entries@)
        &&& decide_all(
            self.range_to_final_result@,
            self.range_to_result_bg@,
            self.range_to_result_tg@,
        )
        &&& self.arch_to_final_ranges.wf()
        &&& self.arch_to_final_ranges@ == group_by_label(self.range_to_final_result@)
        &&& self.kl_arch_to_range_bg == res_ex.kl_bg_arch_to_range
        &&& self.kl_arch_to_range_tg == res_ex.kl_tg_arch_to_range
    }

    /// Whether this result and `other` hold the same numbers, names and
    /// labels at the same places.
    pub open spec fn agrees_with(&self, other: &Self) -> bool {
        &&& self.win_sz == other.win_sz
        &&& self.max_kl_bg == other.max_kl_bg
        &&& self.min_kl_bg == other.min_kl_bg
        &&& self.max_kl_tg == other.max_kl_tg
        &&& self.min_kl_tg == other.min_kl_tg
        &&& same_names(self.idx_to_arch@, other.idx_to_arch@)
        &&& same_results(self.range_to_result_bg@, other.range_to_result_bg@)
        &&& same_results(self.range_to_result_tg@, other.range_to_result_tg@)
        &&& same_labels(self.range_to_final_result@, other.range_to_final_result@)
        &&& self.arch_to_final_ranges.agrees_with(&other.arch_to_final_ranges)
        &&& self.kl_arch_to_range_bg.agrees_with(&other.kl_arch_to_range_bg)
        &&& self.kl_arch_to_range_tg.agrees_with(&other.kl_arch_to_range_tg)
    }

    /// Derives the processed result from the raw one.
    pub fn from(res_ex: DetectionResult) -> (r: Self)
        requires
            res_ex.aligned(),
        ensures
            r.processes(res_ex),
    {
        let win_sz = if res_ex.kl_bg_range_to_arch.entries.len() == 0 {
            0
        } else {
            let first = &res_ex.kl_bg_range_to_arch.entries[0].0;
            if first.end >= first.start {
                first.end - first.start
            } else {
                0
            }
        };
        let idx_to_arch = arch_names(&res_ex.kl_bg_arch_to_range);
        let (max_kl_bg, min_kl_bg) = extremes(&res_ex.kl_bg_arch_to_range, MIN_KL);
        let (max_kl_tg, min_kl_tg) = extremes(&res_ex.kl_tg_arch_to_range, MIN_KL);
        let range_to_result_bg = range_results(&res_ex.kl_bg_range_to_arch);
        let range_to_result_tg = range_results(&res_ex.kl_tg_range_to_arch);
        proof {
            assert(res_ex.kl_bg_range_to_arch.ranges().len() == range_to_result_bg@.len());
            assert(res_ex.kl_tg_range_to_arch.ranges().len() == range_to_result_tg@.len());
        }
        let mut range_to_final_result: Vec<(Range<usize>, Option<String>)> = Vec::new();
        let mut arch_to_final_ranges: ArchMap<Range<usize>> = ArchMap::new();
        proof {
            assert(group_by_label(range_to_final_result@) =~= Map::empty());
        }
        let mut i: usize = 0;
        while i < range_to_result_bg.len()
            invariant
                i <= range_to_result_bg@.len(),
                range_to_result_bg@.len() == range_to_result_tg@.len(),
                decide_all(
                    range_to_final_result@,
                    range_to_result_bg@.take(i as int),
                    range_to_result_tg@.take(i as int),
                ),
                arch_to_final_ranges.wf(),
                arch_to_final_ranges@ == group_by_label(range_to_final_result@),
            decreases range_to_result_bg@.len() - i,
        {
            let range = &range_to_result_bg[i].0;
            let label = final_range_result(&range_to_result_bg[i].1, &range_to_result_tg[i].1);
            let ghost before = range_to_final_result@;
            match &label {
                Some(arch) => {
                    arch_to_final_ranges.push(arch, range.start..range.end);
                },
                None => {},
            }
            proof {
                lemma_group_by_label_push(before, (*range, label));
            }
            range_to_final_result.push((range.start..range.end, label));
            proof {
                let finals = range_to_final_result@;
                let bg = range_to_result_bg@.take(i + 1);
                let tg = range_to_result_tg@.take(i + 1);
                assert forall|k: int| 0 <= k < finals.len() implies (#[trigger] finals[k]).0
                    == bg[k].0 && label_view(finals[k].1) == spec_final_range_result(
                    bg[k].1,
                    tg[k].1,
                ) by {
                    if k < i {
                        assert(finals[k] == before[k]);
                        assert(bg[k] == range_to_result_bg@.take(i as int)[k]);
                        assert(tg[k] == range_to_result_tg@.take(i as int)[k]);
                    }
                }
            }
            i += 1;
        }
        proof {
            assert(range_to_result_bg@.take(i as int) =~= range_to_result_bg@);
            assert(range_to_result_tg@.take(i as int) =~= range_to_result_tg@);
        }
        ProcessedDetectionResult {
            win_sz,
            max_kl_bg,
            min_kl_bg,
            max_kl_tg,
            min_kl_tg,
            range_to_result_bg,
            range_to_result_tg,
            idx_to_arch,
            kl_arch_to_range_bg: res_ex.kl_bg_arch_to_range,
            kl_arch_to_range_tg: res_ex.kl_tg_arch_to_range,
            range_to_final_result,
            arch_to_final_ranges,
        }
    }

    /// The number of `arch`: its place in the order of names, where it has
    /// one.
    pub fn arch_to_idx(&self, arch: &str) -> (idx: Option<usize>)
        ensures
            match idx {
                Some(i) => i < self.idx_to_arch@.len() && self.idx_to_arch@[i as int]@ == arch@
                    && forall|k: int| 0 <= k < i ==> (#[trigger] self.idx_to_arch@[k])@ != arch@,
                None => forall|k: int|
                    0 <= k < self.idx_to_arch@.len() ==> (#[trigger] self.idx_to_arch@[k])@
                        != arch@,
            },
    {
        let mut i: usize = 0;
        while i < self.idx_to_arch.len()
            invariant
                i <= self.idx_to_arch@.len(),
                forall|k: int| 0 <= k < i ==> (#[trigger] self.idx_to_arch@[k])@ != arch@,
            decreases self.idx_to_arch@.len() - i,
        {
            if str_eq(self.idx_to_arch[i].as_str(), arch) {
                return Some(i);
            }
            i += 1;
        }
        None
    }
}

/// Lists of divergences hold one highest divergence only.
pub proof fn lemma_max_div_unique(
    a: Option<i32>,
    b: Option<i32>,
    ea: Seq<(String, Vec<(Range<usize>, i32)>)>,
    eb: Seq<(String, Vec<(Range<usize>, i32)>)>,
)
    requires
        is_max_div(a, ea),
        is_max_div(b, eb),
        ea.len() == eb.len(),
        forall|i: int| 0 <= i < ea.len() ==> (#[trigger] ea[i]).1@ == eb[i].1@,
    ensures
        a == b,
{
    match (a, b) {
        (Some(x), Some(y)) => {
            let (i, j) = choose|i: int, j: int|
                0 <= i < ea.len() && 0 <= j < ea[i].1@.len() && (#[trigger] ea[i].1@[j]).1 == x;
            assert(ea[i].1@ == eb[i].1@);
            assert(eb[i].1@[j].1 <= y);
            let (k, l) = choose|k: int, l: int|
                0 <= k < eb.len() && 0 <= l < eb[k].1@.len() && (#[trigger] eb[k].1@[l]).1 == y;
            assert(ea[k].1@ == eb[k].1@);
            assert(ea[k].1@[l].1 <= x);
        },
        (Some(x), None) => {
            let (i, j) = choose|i: int, j: int|
                0 <= i < ea.len() && 0 <= j < ea[i].1@.len() && (#[trigger] ea[i].1@[j]).1 == x;
            assert(ea[i].1@ == eb[i].1@);
            assert(eb[i].1@.len() == 0);
        },
        (None, Some(y)) => {
            let (k, l) = choose|k: int, l: int|
                0 <= k < eb.len() && 0 <= l < eb[k].1@.len() && (#[trigger] eb[k].1@[l]).1 == y;
            assert(ea[k].1@ == eb[k].1@);
            assert(ea[k].1@.len() == 0);
        },
        (None, None) => {},
    }
}

/// Lists of divergences hold one lowest divergence from a floor only.
pub proof fn lemma_min_div_unique(
    a: Option<i32>,
    b: Option<i32>,
    ea: Seq<(String, Vec<(Range<usize>, i32)>)>,
    eb: Seq<(String, Vec<(Range<usize>, i32)>)>,
    floor: i32,
)
    requires
        is_min_div_from(a, ea, floor),
        is_min_div_from(b, eb, floor),
        ea.len() == eb.len(),
        forall|i: int| 0 <= i < ea.len() ==> (#[trigger] ea[i]).1@ == eb[i].1@,
    ensures
        a == b,
{
    match (a, b) {
        (Some(x), Some(y)) => {
            let (i, j) = choose|i: int, j: int|
                0 <= i < ea.len() && 0 <= j < ea[i].1@.len() && (#[trigger] ea[i].1@[j]).1 == x;
            assert(ea[i].1@ == eb[i].1@);
            assert(eb[i].1@[j].1 >= floor);
            let (k, l) = choose|k: int, l: int|
                0 <= k < eb.len() && 0 <= l < eb[k].1@.len() && (#[trigger] eb[k].1@[l]).1 == y;
            assert(ea[k].1@ == eb[k].1@);
            assert(ea[k].1@[l].1 >= floor);
        },
        (Some(x), None) => {
            let (i, j) = choose|i: int, j: int|
                0 <= i < ea.len() && 0 <= j < ea[i].1@.len() && (#[trigger] ea[i].1@[j]).1 == x;
            assert(ea[i].1@ == eb[i].1@);
            assert(eb[i].1@[j].1 < floor);
        },
        (None, Some(y)) => {
            let (k, l) = choose|k: int, l: int|
                0 <= k < eb.len() && 0 <= l < eb[k].1@.len() && (#[trigger] eb[k].1@[l]).1 == y;
            assert(ea[k].1@ == eb[k].1@);
            assert(ea[k].1@[l].1 < floor);
        },
        (None, None) => {},
    }
}

/// The same labels for the same ranges give the same ranges to every
/// architecture.
pub proof fn lemma_labelled_agree(
    a: Seq<(Range<usize>, Option<String>)>,
    b: Seq<(Range<usize>, Option<String>)>,
    arch: Seq<char>,
)
    requires
        same_labels(a, b),
    ensures
        labelled(a, arch) == labelled(b, arch),
    decreases a.len(),
{
    if a.len() > 0 {
        assert(a[a.len() - 1].0 == b[a.len() - 1].0);
        assert forall|i: int| 0 <= i < a.drop_last().len() implies (#[trigger] a.drop_last()[i]).0
            == b.drop_last()[i].0 && label_view(a.drop_last()[i].1) == label_view(
            b.drop_last()[i].1,
        ) by {
            assert(a[i].0 == b[i].0);
        }
        lemma_labelled_agree(a.drop_last(), b.drop_last(), arch);
    }
}

/// Summaries of lists that hold the same names and divergences agree.
pub proof fn lemma_summaries_agree(
    a: Seq<(Range<usize>, RangeResult)>,
    b: Seq<(Range<usize>, RangeResult)>,
    map_a: RangeMap<(String, i32)>,
    map_b: RangeMap<(String, i32)>,
)
    requires
        map_a.wf(),
        map_b.wf(),
        map_a.ranges() == map_b.ranges(),
        named_lists(map_a@) == named_lists(map_b@),
        summarize_all(a, map_a.entries@),
        summarize_all(b, map_b.entries@),
    ensures
        same_results(a, b),
{
    assert(map_a.entries@.len() == map_a.ranges().len());
    assert(map_b.entries@.len() == map_b.ranges().len());
    assert forall|i: int| 0 <= i < a.len() implies {
        &&& (#[trigger] a[i]).0 == b[i].0
        &&& a[i].1.arch@ == b[i].1.arch@
        &&& a[i].1.div == b[i].1.div
        &&& a[i].1.range_mean == b[i].1.range_mean
        &&& a[i].1.range_var == b[i].1.range_var
    } by {
        let range = map_a.entries@[i].0;
        assert(map_a.ranges()[i] == range);
        assert(map_b.ranges()[i] == map_b.entries@[i].0);
        lemma_range_place_unique(map_a.entries@, i);
        lemma_range_place_unique(map_b.entries@, i);
        let la = map_a.entries@[i].1@;
        let lb = map_b.entries@[i].1@;
        assert(named_lists(map_a@)[range] == named(la));
        assert(named_lists(map_b@)[range] == named(lb));
        assert(named(la).len() == la.len());
        assert(named(lb).len() == lb.len());
        assert forall|j: int| 0 <= j < la.len() implies la[j].1 == lb[j].1 && la[j].0@
            == lb[j].0@ by {
            assert(named(la)[j] == named(lb)[j]);
        }
        assert(divs_of(la) =~= divs_of(lb));
        lemma_first_min(divs_of(la));
    }
}

/// Processing is repeatable: the processed forms of raw results that agree
/// agree.
pub proof fn lemma_processing_is_deterministic(
    raw_a: DetectionResult,
    raw_b: DetectionResult,
    a: ProcessedDetectionResult,
    b: ProcessedDetectionResult,
)
    requires
        raw_a.wf(),
        raw_b.wf(),
        raw_a.agrees_with(&raw_b),
        a.processes(raw_a),
        b.processes(raw_b),
    ensures
        a.agrees_with(&b),
{
    lemma_map_determines_entries(raw_a.kl_bg_arch_to_range, raw_b.kl_bg_arch_to_range);
    lemma_map_determines_entries(raw_a.kl_tg_arch_to_range, raw_b.kl_tg_arch_to_range);
    lemma_max_div_unique(
        a.max_kl_bg,
        b.max_kl_bg,
        raw_a.kl_bg_arch_to_range.entries@,
        raw_b.kl_bg_arch_to_range.entries@,
    );
    lemma_max_div_unique(
        a.max_kl_tg,
        b.max_kl_tg,
        raw_a.kl_tg_arch_to_range.entries@,
        raw_b.kl_tg_arch_to_range.entries@,
    );
    lemma_min_div_unique(
        a.min_kl_bg,
        b.min_kl_bg,
        raw_a.kl_bg_arch_to_range.entries@,
        raw_b.kl_bg_arch_to_range.entries@,
        MIN_KL,
    );
    lemma_min_div_unique(
        a.min_kl_tg,
        b.min_kl_tg,
        raw_a.kl_tg_arch_to_range.entries@,
        raw_b.kl_tg_arch_to_range.entries@,
        MIN_KL,
    );
    // The window size and the numbers of the architectures.
    assert(a.win_sz == b.win_sz) by {
        let ra = raw_a.kl_bg_range_to_arch;
        let rb = raw_b.kl_bg_range_to_arch;
        assert(ra.entries@.len() == ra.ranges().len());
        assert(rb.entries@.len() == rb.ranges().len());
        if ra.entries@.len() > 0 {
            assert(ra.ranges()[0] == ra.entries@[0].0);
            assert(rb.ranges()[0] == rb.entries@[0].0);
        }
    }
    assert(same_names(a.idx_to_arch@, b.idx_to_arch@)) by {
        let na = raw_a.kl_bg_arch_to_range;
        let nb = raw_b.kl_bg_arch_to_range;
        assert forall|i: int| 0 <= i < a.idx_to_arch@.len() implies (#[trigger] a.idx_to_arch@[i])@
            == b.idx_to_arch@[i]@ by {
            assert(na.names()[i] == na.entries@[i].0@);
            assert(nb.names()[i] == nb.entries@[i].0@);
        }
    }
    // The summaries and the labels of the ranges.
    lemma_summaries_agree(
        a.range_to_result_bg@,
        b.range_to_result_bg@,
        raw_a.kl_bg_range_to_arch,
        raw_b.kl_bg_range_to_arch,
    );
    lemma_summaries_agree(
        a.range_to_result_tg@,
        b.range_to_result_tg@,
        raw_a.kl_tg_range_to_arch,
        raw_b.kl_tg_range_to_arch,
    );
    let fa = a.range_to_final_result@;
    let fb = b.range_to_final_result@;
    assert(same_labels(fa, fb)) by {
        let (a_bg, a_tg) = (raw_a.kl_bg_range_to_arch, raw_a.kl_tg_range_to_arch);
        let (b_bg, b_tg) = (raw_b.kl_bg_range_to_arch, raw_b.kl_tg_range_to_arch);
        assert(a_bg.entries@.len() == a_bg.ranges().len());
        assert(a_tg.entries@.len() == a_tg.ranges().len());
        assert(b_bg.entries@.len() == b_bg.ranges().len());
        assert(b_tg.entries@.len() == b_tg.ranges().len());
        assert forall|i: int| 0 <= i < fa.len() implies (#[trigger] fa[i]).0 == fb[i].0
            && label_view(fa[i].1) == label_view(fb[i].1) by {
            assert(a.range_to_result_bg@[i].0 == b.range_to_result_bg@[i].0);
            assert(a.range_to_result_tg@[i].0 == b.range_to_result_tg@[i].0);
        }
    }
    // The ranges of each label.
    assert(group_by_label(fa) =~= group_by_label(fb)) by {
        assert forall|arch: Seq<char>| labelled(fa, arch) == labelled(fb, arch) by {
            lemma_labelled_agree(fa, fb, arch);
        }
    }
    lemma_map_determines_entries(a.arch_to_final_ranges, b.arch_to_final_ranges);
}

} // verus!
