//! The raw result of a detection: every divergence of every architecture in
//! every range, indexed by architecture and by range, separately for
//! 2-grams and for 3-grams.

use crate::arch_map::{lemma_map_determines_entries, list_of, ArchMap};
use crate::corpus::{CorpusStats, Divergences};
use crate::order::{lemma_stable_order, stable_order, stable_order_of};
use crate::range_map::{list_at, RangeMap};
use std::ops::Range;
use vstd::prelude::*;

verus! {

/// The divergence of a window from the reference of one architecture, as a
/// fixed-point number in millionths.
#[derive(Debug)]
pub struct KlRes {
    pub arch: String,
    pub div: i32,
}

/// The divergences of one window from every reference, by 2-grams and by
/// 3-grams.
#[derive(Debug)]
pub struct RangeFullKlRes {
    pub kl_bg: Vec<KlRes>,
    pub kl_tg: Vec<KlRes>,
}

/// The 2-gram divergences of the first `n` of `divs`, as keys to order by.
pub open spec fn bigram_keys(divs: Seq<Divergences>, n: int) -> Seq<i128> {
    Seq::new(n as nat, |i: int| divs[i].bigrams as i128)
}

/// The 3-gram divergences of the first `n` of `divs`, as keys to order by.
pub open spec fn trigram_keys(divs: Seq<Divergences>, n: int) -> Seq<i128> {
    Seq::new(n as nat, |i: int| divs[i].trigrams as i128)
}

/// Whether `list` holds the architectures of `corpus` with their
/// divergences `keys`, in the stable ascending order of the divergences.
pub open spec fn is_ranking(list: Seq<KlRes>, corpus: Seq<CorpusStats>, keys: Seq<i128>) -> bool {
    &&& list.len() == keys.len()
    &&& forall|a: int|
        0 <= a < list.len() ==> (#[trigger] list[a]).arch@ == corpus[stable_order(keys)[a]].arch@
            && list[a].div == keys[stable_order(keys)[a]]
}

/// The architectures of `corpus` with their divergences `keys`, closest
/// first.
fn rank(corpus: &[CorpusStats], keys: &Vec<i128>) -> (list: Vec<KlRes>)
    requires
        keys@.len() <= corpus@.len(),
        forall|i: int|
            0 <= i < keys@.len() ==> -0x8000_0000 <= #[trigger] keys@[i] <= 0x7fff_ffff,
    ensures
        is_ranking(list@, corpus@, keys@),
{
    let order = stable_order_of(keys);
    proof {
        lemma_stable_order(keys@);
    }
    let mut list: Vec<KlRes> = Vec::new();
    let mut a: usize = 0;
    while a < order.len()
        invariant
            a <= order@.len(),
            order@.len() == keys@.len() <= corpus@.len(),
            list@.len() == a,
            forall|b: int|
                0 <= b < order@.len() ==> (#[trigger] order@[b]) as int == stable_order(keys@)[b]
                    && order@[b] < keys@.len(),
            forall|i: int|
                0 <= i < keys@.len() ==> -0x8000_0000 <= #[trigger] keys@[i] <= 0x7fff_ffff,
            forall|b: int|
                0 <= b < a ==> (#[trigger] list@[b]).arch@ == corpus@[stable_order(
                    keys@,
                )[b]].arch@ && list@[b].div == keys@[stable_order(keys@)[b]],
        decreases order@.len() - a,
    {
        let i = order[a];
        list.push(KlRes { arch: corpus[i].arch.clone(), div: keys[i] as i32 });
        a += 1;
    }
    list
}

/// Ranks the architectures of the corpus by the divergences of one window
/// from them, closest first, by 2-grams and by 3-grams. `divs` holds the
/// divergences in the order of `corpus_stats`; where one list is longer,
/// what it has more is left out.
pub fn calculate_kl(corpus_stats: &[CorpusStats], divs: &[Divergences]) -> (r: RangeFullKlRes)
    ensures
        is_ranking(
            r.kl_bg@,
            corpus_stats@,
            bigram_keys(
                divs@,
                if corpus_stats@.len() <= divs@.len() {
                    corpus_stats@.len() as int
                } else {
                    divs@.len() as int
                },
            ),
        ),
        is_ranking(
            r.kl_tg@,
            corpus_stats@,
            trigram_keys(
                divs@,
                if corpus_stats@.len() <= divs@.len() {
                    corpus_stats@.len() as int
                } else {
                    divs@.len() as int
                },
            ),
        ),
{
    let n = if corpus_stats.len() <= divs.len() {
        corpus_stats.len()
    } else {
        divs.len()
    };
    let mut keys_bg: Vec<i128> = Vec::new();
    let mut keys_tg: Vec<i128> = Vec::new();
    let mut i: usize = 0;
    while i < n
        invariant
            i <= n <= divs@.len(),
            keys_bg@ == bigram_keys(divs@, i as int),
            keys_tg@ == trigram_keys(divs@, i as int),
        decreases n - i,
    {
        keys_bg.push(divs[i].bigrams as i128);
        keys_tg.push(divs[i].trigrams as i128);
        proof {
            assert(keys_bg@ =~= bigram_keys(divs@, i + 1));
            assert(keys_tg@ =~= trigram_keys(divs@, i + 1));
        }
        i += 1;
    }
    RangeFullKlRes {
        kl_bg: rank(corpus_stats, &keys_bg),
        kl_tg: rank(corpus_stats, &keys_tg),
    }
}

/// One divergence of one architecture in one range.
pub struct Entry {
    pub range: Range<usize>,
    pub arch: Seq<char>,
    pub div: i32,
}

/// How many results of a window are taken: the two lists are read side by
/// side, as far as the shorter one goes.
pub open spec fn paired(full: RangeFullKlRes) -> int {
    if full.kl_bg@.len() <= full.kl_tg@.len() {
        full.kl_bg@.len() as int
    } else {
        full.kl_tg@.len() as int
    }
}

/// The first `n` results of a window for `range`, as entries.
pub open spec fn window_entries(range: Range<usize>, kl: Seq<KlRes>, n: int) -> Seq<Entry> {
    Seq::new(n as nat, |j: int| Entry { range: range, arch: kl[j].arch@, div: kl[j].div })
}

/// All 2-gram entries of `items`, window after window.
pub open spec fn entries_bg(items: Seq<(Range<usize>, RangeFullKlRes)>) -> Seq<Entry>
    decreases items.len(),
{
    if items.len() == 0 {
        Seq::empty()
    } else {
        entries_bg(items.drop_last()) + window_entries(
            items.last().0,
            items.last().1.kl_bg@,
            paired(items.last().1),
        )
    }
}

/// All 3-gram entries of `items`, window after window.
pub open spec fn entries_tg(items: Seq<(Range<usize>, RangeFullKlRes)>) -> Seq<Entry>
    decreases items.len(),
{
    if items.len() == 0 {
        Seq::empty()
    } else {
        entries_tg(items.drop_last()) + window_entries(
            items.last().0,
            items.last().1.kl_tg@,
            paired(items.last().1),
        )
    }
}

/// The ranges and divergences of the entries of `arch`, in their order.
pub open spec fn by_arch(entries: Seq<Entry>, arch: Seq<char>) -> Seq<(Range<usize>, i32)>
    decreases entries.len(),
{
    if entries.len() == 0 {
        Seq::empty()
    } else if entries.last().arch == arch {
        by_arch(entries.drop_last(), arch).push((entries.last().range, entries.last().div))
    } else {
        by_arch(entries.drop_last(), arch)
    }
}

/// The architectures and divergences of the entries of `range`, in their
/// order.
pub open spec fn by_range(entries: Seq<Entry>, range: Range<usize>) -> Seq<(Seq<char>, i32)>
    decreases entries.len(),
{
    if entries.len() == 0 {
        Seq::empty()
    } else if entries.last().range == range {
        by_range(entries.drop_last(), range).push((entries.last().arch, entries.last().div))
    } else {
        by_range(entries.drop_last(), range)
    }
}

/// The ranges of `entries`, each once, in the order in which they first
/// occur.
pub open spec fn first_ranges(entries: Seq<Entry>) -> Seq<Range<usize>>
    decreases entries.len(),
{
    if entries.len() == 0 {
        Seq::empty()
    } else if by_range(entries.drop_last(), entries.last().range).len() > 0 {
        first_ranges(entries.drop_last())
    } else {
        first_ranges(entries.drop_last()).push(entries.last().range)
    }
}

/// The entries grouped by architecture: each architecture that occurs,
/// with its ranges and divergences.
pub open spec fn group_by_arch(entries: Seq<Entry>) -> Map<Seq<char>, Seq<(Range<usize>, i32)>> {
    Map::new(
        |arch: Seq<char>| by_arch(entries, arch).len() > 0,
        |arch: Seq<char>| by_arch(entries, arch),
    )
}

/// The entries grouped by range: each range that occurs, with its
/// architectures and divergences.
pub open spec fn group_by_range(entries: Seq<Entry>) -> Map<Range<usize>, Seq<(Seq<char>, i32)>> {
    Map::new(
        |range: Range<usize>| by_range(entries, range).len() > 0,
        |range: Range<usize>| by_range(entries, range),
    )
}

/// A list of named divergences, each name as its characters.
pub open spec fn named(list: Seq<(String, i32)>) -> Seq<(Seq<char>, i32)> {
    Seq::new(list.len(), |j: int| (list[j].0@, list[j].1))
}

/// A map of lists of named divergences, each name as its characters.
pub open spec fn named_lists(m: Map<Range<usize>, Seq<(String, i32)>>) -> Map<
    Range<usize>,
    Seq<(Seq<char>, i32)>,
> {
    Map::new(|range: Range<usize>| m.contains_key(range), |range: Range<usize>| named(m[range]))
}

/// The raw result of a detection.
#[derive(Debug)]
pub struct DetectionResult {
    pub kl_bg_arch_to_range: ArchMap<(Range<usize>, i32)>,
    pub kl_tg_arch_to_range: ArchMap<(Range<usize>, i32)>,
    pub kl_bg_range_to_arch: RangeMap<(String, i32)>,
    pub kl_tg_range_to_arch: RangeMap<(String, i32)>,
}

/// Adding an entry to the entries adds it to the list of its architecture.
pub proof fn lemma_group_by_arch_push(entries: Seq<Entry>, e: Entry)
    ensures
        group_by_arch(entries.push(e)) == group_by_arch(entries).insert(
            e.arch,
            list_of(group_by_arch(entries), e.arch).push((e.range, e.div)),
        ),
{
    let next = entries.push(e);
    assert(next.drop_last() =~= entries);
    assert(list_of(group_by_arch(entries), e.arch) =~= by_arch(entries, e.arch));
    assert(group_by_arch(next) =~= group_by_arch(entries).insert(
        e.arch,
        list_of(group_by_arch(entries), e.arch).push((e.range, e.div)),
    ));
}

/// Adding an entry to the entries adds it to the list of its range.
pub proof fn lemma_group_by_range_push(entries: Seq<Entry>, e: Entry)
    ensures
        group_by_range(entries.push(e)) == group_by_range(entries).insert(
            e.range,
            list_at(group_by_range(entries), e.range).push((e.arch, e.div)),
        ),
        first_ranges(entries.push(e)) == if group_by_range(entries).contains_key(e.range) {
            first_ranges(entries)
        } else {
            first_ranges(entries).push(e.range)
        },
{
    let next = entries.push(e);
    assert(next.drop_last() =~= entries);
    assert(list_at(group_by_range(entries), e.range) =~= by_range(entries, e.range));
    assert(group_by_range(next) =~= group_by_range(entries).insert(
        e.range,
        list_at(group_by_range(entries), e.range).push((e.arch, e.div)),
    ));
}

/// Adds the result `res` of the window `range` to the index by
/// architecture.
fn record_by_arch(
    map: &mut ArchMap<(Range<usize>, i32)>,
    range: &Range<usize>,
    res: &KlRes,
    Ghost(entries): Ghost<Seq<Entry>>,
)
    requires
        old(map).wf(),
        old(map)@ == group_by_arch(entries),
    ensures
        final(map).wf(),
        final(map)@ == group_by_arch(
            entries.push(Entry { range: *range, arch: res.arch@, div: res.div }),
        ),
{
    proof {
        lemma_group_by_arch_push(entries, Entry { range: *range, arch: res.arch@, div: res.div });
    }
    map.push(&res.arch, (range.start..range.end, res.div));
}

/// Adds the result `res` of the window `range` to the index by range.
fn record_by_range(
    map: &mut RangeMap<(String, i32)>,
    range: &Range<usize>,
    res: &KlRes,
    Ghost(entries): Ghost<Seq<Entry>>,
)
    requires
        old(map).wf(),
        named_lists(old(map)@) == group_by_range(entries),
        old(map).ranges() == first_ranges(entries),
    ensures
        final(map).wf(),
        named_lists(final(map)@) == group_by_range(
            entries.push(Entry { range: *range, arch: res.arch@, div: res.div }),
        ),
        final(map).ranges() == first_ranges(
            entries.push(Entry { range: *range, arch: res.arch@, div: res.div }),
        ),
{
    let ghost e = Entry { range: *range, arch: res.arch@, div: res.div };
    let ghost before = map@;
    proof {
        lemma_group_by_range_push(entries, e);
        assert(before.contains_key(*range) == group_by_range(entries).contains_key(*range)) by {
            assert(named_lists(before).contains_key(*range) == before.contains_key(*range));
        }
        if before.contains_key(*range) {
            assert(named_lists(before)[*range] == named(before[*range]));
        }
    }
    let name = res.arch.clone();
    map.push(range, (name, res.div));
    proof {
        let item = (name, res.div);
        let list = list_at(before, *range);
        assert(named(list) =~= list_at(group_by_range(entries), *range));
        assert(named(list.push(item)) =~= named(list).push((res.arch@, res.div)));
        assert(named_lists(map@) =~= group_by_range(entries).insert(
            *range,
            list_at(group_by_range(entries), *range).push((res.arch@, res.div)),
        )) by {
            assert forall|r: Range<usize>| #[trigger]
                named_lists(map@).contains_key(r) implies named_lists(map@)[r]
                == group_by_range(entries).insert(
                *range,
                list_at(group_by_range(entries), *range).push((res.arch@, res.div)),
            )[r] by {
                if r != *range {
                    assert(map@[r] == before[r]);
                    assert(named_lists(before)[r] == named(before[r]));
                }
            }
            assert forall|r: Range<usize>|
                named_lists(map@).contains_key(r) == group_by_range(entries).insert(
                    *range,
                    list_at(group_by_range(entries), *range).push((res.arch@, res.div)),
                ).contains_key(r) by {
                assert(named_lists(before).contains_key(r) == before.contains_key(r));
            }
        }
    }
}

impl DetectionResult {
    /// Whether the four indexes are in order and the two indexes by range
    /// hold the same ranges in the same order.
    pub open spec fn wf(&self) -> bool {
        &&& self.kl_bg_arch_to_range.wf()
        &&& self.kl_tg_arch_to_range.wf()
        &&& self.kl_bg_range_to_arch.wf()
        &&& self.kl_tg_range_to_arch.wf()
        &&& self.kl_bg_range_to_arch.ranges() == self.kl_tg_range_to_arch.ranges()
    }

    /// Whether the two indexes by range hold the same ranges at the same
    /// places, each with lists that are not empty.
    pub open spec fn aligned(&self) -> bool {
        &&& self.kl_bg_range_to_arch.filled()
        &&& self.kl_tg_range_to_arch.filled()
        &&& self.kl_bg_range_to_arch.ranges() == self.kl_tg_range_to_arch.ranges()
    }

    /// Whether the two indexes by range hold the same ranges at the same
    /// places, each with lists that are not empty.
    pub fn is_aligned(&self) -> (r: bool)
        ensures
            r == self.aligned(),
    {
        let bg = &self.kl_bg_range_to_arch;
        let tg = &self.kl_tg_range_to_arch;
        if !bg.is_filled() || !tg.is_filled() {
            return false;
        }
        if bg.entries.len() != tg.entries.len() {
            assert(bg.ranges().len() != tg.ranges().len());
            return false;
        }
        let mut i: usize = 0;
        while i < bg.entries.len()
            invariant
                i <= bg.entries@.len(),
                bg.entries@.len() == tg.entries@.len(),
                *bg == self.kl_bg_range_to_arch,
                *tg == self.kl_tg_range_to_arch,
                bg.filled(),
                tg.filled(),
                forall|k: int| 0 <= k < i ==> (#[trigger] bg.entries@[k]).0 == tg.entries@[k].0,
            decreases bg.entries@.len() - i,
        {
            if bg.entries[i].0.start != tg.entries[i].0.start || bg.entries[i].0.end
                != tg.entries[i].0.end {
                assert(bg.ranges()[i as int] != tg.ranges()[i as int]);
                return false;
            }
            i += 1;
        }
        assert(bg.ranges() =~= tg.ranges());
        true
    }

    /// Whether this is the result collected from `items`: every index is
    /// in order and holds the entries of `items`, grouped by its key.
    pub open spec fn collects(&self, items: Seq<(Range<usize>, RangeFullKlRes)>) -> bool {
        &&& self.wf()
        &&& self.kl_bg_arch_to_range@ == group_by_arch(entries_bg(items))
        &&& self.kl_tg_arch_to_range@ == group_by_arch(entries_tg(items))
        &&& named_lists(self.kl_bg_range_to_arch@) == group_by_range(entries_bg(items))
        &&& named_lists(self.kl_tg_range_to_arch@) == group_by_range(entries_tg(items))
        &&& self.kl_bg_range_to_arch.ranges() == first_ranges(entries_bg(items))
        &&& self.kl_tg_range_to_arch.ranges() == first_ranges(entries_tg(items))
    }

    /// Whether this result and `other` hold the same keys at the same
    /// places and the same lists for them.
    pub open spec fn agrees_with(&self, other: &Self) -> bool {
        &&& self.kl_bg_arch_to_range.agrees_with(&other.kl_bg_arch_to_range)
        &&& self.kl_tg_arch_to_range.agrees_with(&other.kl_tg_arch_to_range)
        &&& self.kl_bg_range_to_arch.ranges() == other.kl_bg_range_to_arch.ranges()
        &&& self.kl_tg_range_to_arch.ranges() == other.kl_tg_range_to_arch.ranges()
        &&& named_lists(self.kl_bg_range_to_arch@) == named_lists(other.kl_bg_range_to_arch@)
        &&& named_lists(self.kl_tg_range_to_arch@) == named_lists(other.kl_tg_range_to_arch@)
    }

    /// Collects the results of all windows into the four indexes. Of each
    /// window the 2-gram and the 3-gram results are read side by side.
    pub fn from(items: Vec<(Range<usize>, RangeFullKlRes)>) -> (res: Self)
        ensures
            res.collects(items@),
    {
        let mut res = DetectionResult {
            kl_bg_arch_to_range: ArchMap::new(),
            kl_tg_arch_to_range: ArchMap::new(),
            kl_bg_range_to_arch: RangeMap::new(),
            kl_tg_range_to_arch: RangeMap::new(),
        };
        let ghost mut seen_bg: Seq<Entry> = Seq::empty();
        let ghost mut seen_tg: Seq<Entry> = Seq::empty();
        proof {
            assert(group_by_arch(seen_bg) =~= Map::empty());
            assert(group_by_range(seen_bg) =~= Map::empty());
            assert(named_lists(res.kl_bg_range_to_arch@) =~= Map::empty());
            assert(named_lists(res.kl_tg_range_to_arch@) =~= Map::empty());
        }
        let mut i: usize = 0;
        while i < items.len()
            invariant
                i <= items@.len(),
                res.wf(),
                seen_bg == entries_bg(items@.take(i as int)),
                seen_tg == entries_tg(items@.take(i as int)),
                res.kl_bg_arch_to_range@ == group_by_arch(seen_bg),
                res.kl_tg_arch_to_range@ == group_by_arch(seen_tg),
                named_lists(res.kl_bg_range_to_arch@) == group_by_range(seen_bg),
                named_lists(res.kl_tg_range_to_arch@) == group_by_range(seen_tg),
                res.kl_bg_range_to_arch.ranges() == first_ranges(seen_bg),
                res.kl_tg_range_to_arch.ranges() == first_ranges(seen_tg),
            decreases items@.len() - i,
        {
            let range = &items[i].0;
            let full = &items[i].1;
            let n = if full.kl_bg.len() <= full.kl_tg.len() {
                full.kl_bg.len()
            } else {
                full.kl_tg.len()
            };
            let ghost base_bg = seen_bg;
            let ghost base_tg = seen_tg;
            let mut j: usize = 0;
            proof {
                assert(seen_bg =~= base_bg + window_entries(*range, full.kl_bg@, 0));
                assert(seen_tg =~= base_tg + window_entries(*range, full.kl_tg@, 0));
            }
            while j < n
                invariant
                    j <= n,
                    n == paired(*full),
                    res.wf(),
                    seen_bg == base_bg + window_entries(*range, full.kl_bg@, j as int),
                    seen_tg == base_tg + window_entries(*range, full.kl_tg@, j as int),
                    res.kl_bg_arch_to_range@ == group_by_arch(seen_bg),
                    res.kl_tg_arch_to_range@ == group_by_arch(seen_tg),
                    named_lists(res.kl_bg_range_to_arch@) == group_by_range(seen_bg),
                    named_lists(res.kl_tg_range_to_arch@) == group_by_range(seen_tg),
                    res.kl_bg_range_to_arch.ranges() == first_ranges(seen_bg),
                    res.kl_tg_range_to_arch.ranges() == first_ranges(seen_tg),
                decreases n - j,
            {
                let bg = &full.kl_bg[j];
                let tg = &full.kl_tg[j];
                let ghost e_bg = Entry { range: *range, arch: bg.arch@, div: bg.div };
                let ghost e_tg = Entry { range: *range, arch: tg.arch@, div: tg.div };
                proof {
                    lemma_group_by_range_push(seen_bg, e_bg);
                    lemma_group_by_range_push(seen_tg, e_tg);
                    assert(named_lists(res.kl_bg_range_to_arch@).contains_key(*range)
                        == res.kl_bg_range_to_arch@.contains_key(*range));
                    assert(named_lists(res.kl_tg_range_to_arch@).contains_key(*range)
                        == res.kl_tg_range_to_arch@.contains_key(*range));
                    assert(res.kl_bg_range_to_arch@.contains_key(*range)
                        == res.kl_tg_range_to_arch@.contains_key(*range)) by {
                        lemma_same_ranges_same_keys(
                            res.kl_bg_range_to_arch,
                            res.kl_tg_range_to_arch,
                            *range,
                        );
                    }
                }
                record_by_arch(&mut res.kl_bg_arch_to_range, range, bg, Ghost(seen_bg));
                record_by_arch(&mut res.kl_tg_arch_to_range, range, tg, Ghost(seen_tg));
                record_by_range(&mut res.kl_bg_range_to_arch, range, bg, Ghost(seen_bg));
                record_by_range(&mut res.kl_tg_range_to_arch, range, tg, Ghost(seen_tg));
                proof {
                    seen_bg = seen_bg.push(e_bg);
                    seen_tg = seen_tg.push(e_tg);
                    assert(seen_bg =~= base_bg + window_entries(*range, full.kl_bg@, j + 1));
                    assert(seen_tg =~= base_tg + window_entries(*range, full.kl_tg@, j + 1));
                }
                j += 1;
            }
            proof {
                assert(items@.take(i + 1).drop_last() =~= items@.take(i as int));
            }
            i += 1;
        }
        proof {
            assert(items@.take(i as int) =~= items@);
        }
        res
    }
}

/// Maps that hold the same ranges hold a list for the same ranges.
pub proof fn lemma_same_ranges_same_keys<S, T>(a: RangeMap<S>, b: RangeMap<T>, range: Range<usize>)
    requires
        a.ranges() == b.ranges(),
    ensures
        a@.contains_key(range) == b@.contains_key(range),
{
    assert(a.entries@.len() == a.ranges().len());
    assert(b.entries@.len() == b.ranges().len());
    if a@.contains_key(range) {
        let i = choose|i: int| 0 <= i < a.entries@.len() && a.entries@[i].0 == range;
        assert(a.ranges()[i] == range);
        assert(b.ranges()[i] == b.entries@[i].0);
    }
    if b@.contains_key(range) {
        let i = choose|i: int| 0 <= i < b.entries@.len() && b.entries@[i].0 == range;
        assert(b.ranges()[i] == range);
        assert(a.ranges()[i] == a.entries@[i].0);
    }
}

/// Collecting is repeatable: results collected from windows with the same
/// entries agree.
pub proof fn lemma_collecting_is_deterministic(
    items_a: Seq<(Range<usize>, RangeFullKlRes)>,
    items_b: Seq<(Range<usize>, RangeFullKlRes)>,
    a: DetectionResult,
    b: DetectionResult,
)
    requires
        entries_bg(items_a) == entries_bg(items_b),
        entries_tg(items_a) == entries_tg(items_b),
        a.collects(items_a),
        b.collects(items_b),
    ensures
        a.agrees_with(&b),
{
    lemma_map_determines_entries(a.kl_bg_arch_to_range, b.kl_bg_arch_to_range);
    lemma_map_determines_entries(a.kl_tg_arch_to_range, b.kl_tg_arch_to_range);
}

} // verus!
