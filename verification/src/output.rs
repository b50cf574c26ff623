//! The result of a detection as it is reported: runs of adjacent ranges
//! with the same label, fused into regions.

use crate::heuristic::label_view;
use crate::names::str_eq;
use crate::order::{ascending, lemma_stable_order, stable_order, stable_order_of};
use crate::processed::{same_labels, ProcessedDetectionResult};
use std::ops::Range;
use vstd::prelude::*;

verus! {

/// Information that is reported for each analyzed file.
#[derive(Debug)]
pub struct CliJsonOutput {
    /// Name of the analyzed file.
    pub file: String,
    /// Consolidated detection results: the range of a region, the number
    /// of its bytes and its architecture.
    pub range_results: Vec<(Range<usize>, usize, String)>,
}

/// The beginnings of the ranges of `finals`, as keys to order by.
pub open spec fn start_keys(finals: Seq<(Range<usize>, Option<String>)>) -> Seq<i128> {
    Seq::new(finals.len(), |i: int| finals[i].0.start as i128)
}

/// The ranges of `finals` with their labels, in the stable ascending order
/// of their beginnings.
pub open spec fn by_start(finals: Seq<(Range<usize>, Option<String>)>) -> Seq<
    (Range<usize>, Option<Seq<char>>),
> {
    Seq::new(
        finals.len(),
        |a: int|
            (
                finals[stable_order(start_keys(finals))[a]].0,
                label_view(finals[stable_order(start_keys(finals))[a]].1),
            ),
    )
}

/// The regions of `labels`: each run of consecutive ranges with the same
/// label becomes one region from the beginning of its first range to the
/// end of its last; ranges without a label belong to no region and end a
/// run.
pub open spec fn consolidate(labels: Seq<(Range<usize>, Option<Seq<char>>)>) -> Seq<
    (Range<usize>, usize, Seq<char>),
>
    decreases labels.len(),
{
    if labels.len() == 0 {
        Seq::empty()
    } else {
        let before = consolidate(labels.drop_last());
        let range = labels.last().0;
        match labels.last().1 {
            None => before,
            Some(arch) => if labels.len() >= 2 && labels[labels.len() - 2].1 == Some(arch) {
                before.drop_last().push(
                    (
                        Range { start: before.last().0.start, end: range.end },
                        (range.end - before.last().0.start) as usize,
                        arch,
                    ),
                )
            } else {
                before.push((range, (range.end - range.start) as usize, arch))
            },
        }
    }
}

/// Regions, each architecture as its characters.
pub open spec fn regions_view(regions: Seq<(Range<usize>, usize, String)>) -> Seq<
    (Range<usize>, usize, Seq<char>),
> {
    Seq::new(regions.len(), |k: int| (regions[k].0, regions[k].1, regions[k].2@))
}

impl CliJsonOutput {
    /// Whether this is the report for `file` with the labels `finals`.
    pub open spec fn reports(
        &self,
        file: Seq<char>,
        finals: Seq<(Range<usize>, Option<String>)>,
    ) -> bool {
        &&& self.file@ == file
        &&& regions_view(self.range_results@) == consolidate(by_start(finals))
    }

    /// The report for `file` with the result `res`: the labelled ranges in
    /// the order of their beginnings, fused into regions.
    pub fn from(file: &str, res: &ProcessedDetectionResult) -> (out: Self)
        requires
            forall|i: int|
                0 <= i < res.range_to_final_result@.len() ==> (
                #[trigger] res.range_to_final_result@[i]).0.start
                    <= res.range_to_final_result@[i].0.end,
        ensures
            out.reports(file@, res.range_to_final_result@),
    {
        let finals = &res.range_to_final_result;
        let mut keys: Vec<i128> = Vec::new();
        let mut i: usize = 0;
        while i < finals.len()
            invariant
                i <= finals@.len(),
                keys@ == start_keys(finals@).take(i as int),
            decreases finals@.len() - i,
        {
            keys.push(finals[i].0.start as i128);
            proof {
                assert(keys@ =~= start_keys(finals@).take(i + 1));
            }
            i += 1;
        }
        proof {
            assert(keys@ =~= start_keys(finals@));
            lemma_stable_order(keys@);
        }
        let order = stable_order_of(&keys);
        let ghost sorted = by_start(finals@);
        let mut regions: Vec<(Range<usize>, usize, String)> = Vec::new();
        let mut a: usize = 0;
        while a < order.len()
            invariant
                a <= order@.len(),
                order@.len() == finals@.len(),
                keys@ == start_keys(finals@),
                sorted == by_start(finals@),
                stable_order(keys@).len() == keys@.len(),
                ascending(stable_order(keys@), keys@),
                forall|b: int|
                    0 <= b < order@.len() ==> (#[trigger] order@[b]) as int == stable_order(
                        keys@,
                    )[b],
                forall|i: int|
                    0 <= i < finals@.len() ==> (#[trigger] finals@[i]).0.start
                        <= finals@[i].0.end,
                regions_view(regions@) == consolidate(sorted.take(a as int)),
                a > 0 && sorted[a - 1].1 is Some ==> regions@.len() > 0 && regions@.last().2@
                    == sorted[a - 1].1->0 && regions@.last().0.start <= sorted[a - 1].0.start,
            decreases order@.len() - a,
        {
            let at = order[a];
            proof {
                assert(order@[a as int] as int == stable_order(keys@)[a as int]);
                assert(0 <= stable_order(keys@)[a as int] < keys@.len());
                assert(sorted.take(a + 1).drop_last() =~= sorted.take(a as int));
                assert(sorted.take(a + 1).last() == sorted[a as int]);
                if a > 0 {
                    assert(sorted.take(a + 1)[a - 1] == sorted[a - 1]);
                    let p = stable_order(keys@)[a - 1];
                    let q = stable_order(keys@)[a as int];
                    assert(keys@[p] <= keys@[q]);
                    assert(sorted[a - 1].0.start <= sorted[a as int].0.start);
                }
            }
            let range = &finals[at].0;
            match &finals[at].1 {
                None => {},
                Some(arch) => {
                    let goes_on = a > 0 && match &finals[order[a - 1]].1 {
                        Some(prev) => str_eq(prev.as_str(), arch.as_str()),
                        None => false,
                    };
                    proof {
                        if a > 0 {
                            assert(order@[a - 1] as int == stable_order(keys@)[a - 1]);
                        }
                        assert(goes_on == (a >= 1 && sorted[a - 1].1 == Some(arch@)));
                    }
                    let ghost before = regions@;
                    if goes_on {
                        let run = regions.pop().unwrap();
                        regions.push(
                            (run.0.start..range.end, range.end - run.0.start, run.2),
                        );
                        proof {
                            let shown = consolidate(sorted.take(a as int));
                            assert(regions_view(before).last() == shown.last());
                            assert(regions_view(regions@) =~= shown.drop_last().push(
                                (
                                    Range { start: shown.last().0.start, end: range.end },
                                    (range.end - shown.last().0.start) as usize,
                                    arch@,
                                ),
                            ));
                        }
                    } else {
                        regions.push(
                            (range.start..range.end, range.end - range.start, arch.clone()),
                        );
                        proof {
                            assert(regions_view(regions@) =~= regions_view(before).push(
                                (*range, (range.end - range.start) as usize, arch@),
                            ));
                        }
                    }
                },
            }
            a += 1;
        }
        proof {
            assert(sorted.take(a as int) =~= sorted);
        }
        CliJsonOutput { file: file.to_owned(), range_results: regions }
    }
}

/// Reporting is repeatable: reports for the same file with the same labels
/// for the same ranges hold the same regions.
pub proof fn lemma_reporting_is_deterministic(
    file: Seq<char>,
    finals_a: Seq<(Range<usize>, Option<String>)>,
    finals_b: Seq<(Range<usize>, Option<String>)>,
    a: CliJsonOutput,
    b: CliJsonOutput,
)
    requires
        same_labels(finals_a, finals_b),
        a.reports(file, finals_a),
        b.reports(file, finals_b),
    ensures
        a.file@ == b.file@,
        regions_view(a.range_results@) == regions_view(b.range_results@),
{
    assert(start_keys(finals_a) =~= start_keys(finals_b)) by {
        assert forall|i: int| 0 <= i < finals_a.len() implies start_keys(finals_a)[i]
            == start_keys(finals_b)[i] by {
            assert(finals_a[i].0 == finals_b[i].0);
        }
    }
    lemma_stable_order(start_keys(finals_a));
    assert(by_start(finals_a) =~= by_start(finals_b)) by {
        assert forall|k: int| 0 <= k < finals_a.len() implies by_start(finals_a)[k] == by_start(
            finals_b,
        )[k] by {
            let i = stable_order(start_keys(finals_a))[k];
            assert(finals_a[i].0 == finals_b[i].0);
        }
    }
}

} // verus!
