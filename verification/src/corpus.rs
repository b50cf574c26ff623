//! The statistics of a byte sample: the frequencies of its 1-, 2- and
//! 3-grams, smoothed by a base count.
//!
//! Frequencies are exact fractions. With a base count `b` an n-gram that
//! occurs `c` times weighs `c + b` and one that does not occur weighs `b`;
//! the frequency of either is its weight over the total weight of all
//! n-grams of the order. All numerators and the total are held multiplied
//! by the denominator of `b`, so that they are integers.

use crate::ngram::{
    count_grams, count_map, count_sum, first_seen, gram_space, lemma_first_seen,
    lemma_occurrences_bounds, occurrences, window_count,
};
use crate::names::{spec_trim_end, trim_end};
use std::collections::HashMap;
use std::ops::Range;
use vstd::prelude::*;
use vstd::slice::slice_subrange;

verus! {

broadcast use vstd::std_specs::hash::group_hash_axioms;

/// A smoothing count: the fraction `num / den`.
#[derive(Clone, Copy, Debug, PartialEq, Eq, Structural)]
pub struct BaseCount {
    pub num: u32,
    pub den: u32,
}

/// A frequency: the fraction `num / den`. It is no number where `den` is
/// zero, as with a sample without windows and without smoothing.
#[derive(Clone, Copy, Debug, PartialEq, Eq, Structural)]
pub struct Ratio {
    pub num: u128,
    pub den: u128,
}

/// The weight of an n-gram that occurs `count` times, multiplied by the
/// denominator of `base`.
pub open spec fn weight(count: int, base: BaseCount) -> int {
    count * base.den + base.num
}

/// The sum of the weights that the n-grams in `keys` have in `data`.
pub open spec fn weight_sum(keys: Seq<u32>, data: Seq<u8>, order: int, base: BaseCount) -> int
    decreases keys.len(),
{
    if keys.len() == 0 {
        0
    } else {
        weight_sum(keys.drop_last(), data, order, base) + weight(
            occurrences(data, order, keys.last() as int, window_count(data)),
            base,
        )
    }
}

/// The total weight of all n-grams of `order`: the base count for each
/// that does not occur in `data`, and its weight for each that does.
pub open spec fn spec_qtotal(data: Seq<u8>, order: int, base: BaseCount) -> int {
    let keys = first_seen(data, order, window_count(data));
    base.num * (gram_space(order) - keys.len()) + weight_sum(keys, data, order, base)
}

/// The weights of n-grams add up to their counts and one base count each.
pub proof fn lemma_weight_sum(keys: Seq<u32>, data: Seq<u8>, order: int, base: BaseCount)
    ensures
        weight_sum(keys, data, order, base) == count_sum(keys, data, order, window_count(data))
            * base.den + keys.len() * base.num,
    decreases keys.len(),
{
    if keys.len() > 0 {
        lemma_weight_sum(keys.drop_last(), data, order, base);
        let rest = count_sum(keys.drop_last(), data, order, window_count(data));
        let c = occurrences(data, order, keys.last() as int, window_count(data));
        let d = base.den as int;
        let m = base.num as int;
        let l = keys.len() as int;
        assert((rest + c) * d + l * m == rest * d + (l - 1) * m + (c * d + m))
            by (nonlinear_arith);
    }
}

/// The total weight is one base count for every n-gram of the order and
/// one for every window of the sample.
pub proof fn lemma_qtotal_closed_form(data: Seq<u8>, order: int, base: BaseCount)
    requires
        1 <= order <= 3,
    ensures
        spec_qtotal(data, order, base) == gram_space(order) * base.num + window_count(data)
            * base.den,
{
    let n = window_count(data);
    let keys = first_seen(data, order, n);
    lemma_first_seen(data, order, n);
    lemma_weight_sum(keys, data, order, base);
    let m = base.num as int;
    let s = gram_space(order);
    let l = keys.len() as int;
    assert(m * (s - l) + l * m == s * m) by (nonlinear_arith);
}

/// The frequencies of the n-grams of one order in a sample.
#[derive(Debug)]
pub struct NgramFreqs {
    /// The length of the n-grams: 1, 2 or 3.
    pub order: u8,
    /// How often each n-gram occurs that does.
    pub counts: HashMap<u32, u64>,
    /// The n-grams that occur, in the order in which they first do.
    pub keys: Vec<u32>,
    /// The smoothing count.
    pub base: BaseCount,
    /// The total weight of all n-grams, multiplied by the denominator of
    /// the base count: the denominator of every frequency.
    pub qtotal: u128,
}

impl NgramFreqs {
    /// Whether these are the frequencies of the n-grams of `order` in
    /// `data`, smoothed by `base`.
    pub open spec fn is_freqs_of(&self, data: Seq<u8>, order: int, base: BaseCount) -> bool {
        &&& self.order == order
        &&& self.counts@ == count_map(data, order, window_count(data))
        &&& self.keys@ == first_seen(data, order, window_count(data))
        &&& self.base == base
        &&& self.qtotal == spec_qtotal(data, order, base)
    }

    /// Whether these frequencies and `other` hold the same counts, the
    /// same n-grams in the same order, and the same total weight.
    pub open spec fn agrees_with(&self, other: &Self) -> bool {
        &&& self.order == other.order
        &&& self.counts@ == other.counts@
        &&& self.keys@ == other.keys@
        &&& self.base == other.base
        &&& self.qtotal == other.qtotal
    }

    /// The frequency of `key`, where it occurs.
    pub open spec fn spec_freq(&self, key: u32) -> Option<Ratio> {
        if self.counts@.contains_key(key) {
            Some(
                Ratio {
                    num: weight(self.counts@[key] as int, self.base) as u128,
                    den: self.qtotal,
                },
            )
        } else {
            None
        }
    }

    /// The frequency of every n-gram that does not occur.
    pub open spec fn spec_base_freq(&self) -> Ratio {
        Ratio { num: self.base.num as u128, den: self.qtotal }
    }

    /// The frequency of `key`, whether it occurs or not.
    pub open spec fn spec_freq_or_base(&self, key: u32) -> Ratio {
        match self.spec_freq(key) {
            Some(f) => f,
            None => self.spec_base_freq(),
        }
    }

    /// The frequency of `key`, where it occurs.
    pub fn freq(&self, key: u32) -> (f: Option<Ratio>)
        ensures
            f == self.spec_freq(key),
    {
        match self.counts.get(&key) {
            Some(c) => {
                let count: u128 = *c as u128;
                let den: u128 = self.base.den as u128;
                assert(count * den <= 0xffff_ffff_ffff_ffff * 0xffff_ffff) by (nonlinear_arith)
                    requires
                        0 <= count <= 0xffff_ffff_ffff_ffff,
                        0 <= den <= 0xffff_ffff,
                ;
                Some(Ratio { num: count * den + self.base.num as u128, den: self.qtotal })
            },
            None => None,
        }
    }

    /// The frequency of every n-gram that does not occur.
    pub fn base_freq(&self) -> (f: Ratio)
        ensures
            f == self.spec_base_freq(),
    {
        Ratio { num: self.base.num as u128, den: self.qtotal }
    }

    /// The frequency of `key`, whether it occurs or not.
    pub fn freq_or_base(&self, key: u32) -> (f: Ratio)
        ensures
            f == self.spec_freq_or_base(key),
    {
        match self.freq(key) {
            Some(f) => f,
            None => self.base_freq(),
        }
    }

    /// The frequencies of the n-grams of `order` in `data`, smoothed by
    /// `base`.
    pub fn new(data: &[u8], order: u8, base: BaseCount) -> (freqs: Self)
        requires
            1 <= order <= 3,
        ensures
            freqs.is_freqs_of(data@, order as int, base),
    {
        let (counts, keys) = count_grams(data, order);
        let windows: u128 = if data.len() >= 3 {
            (data.len() - 2) as u128
        } else {
            0
        };
        let space: u128 = if order == 1 {
            0x100
        } else if order == 2 {
            0x1_0000
        } else {
            0x100_0000
        };
        let num: u128 = base.num as u128;
        let den: u128 = base.den as u128;
        proof {
            lemma_qtotal_closed_form(data@, order as int, base);
            assert(space * num <= 0x100_0000 * 0xffff_ffff) by (nonlinear_arith)
                requires
                    0 <= space <= 0x100_0000,
                    0 <= num <= 0xffff_ffff,
            ;
            assert(windows * den <= 0xffff_ffff_ffff_ffff * 0xffff_ffff) by (nonlinear_arith)
                requires
                    0 <= windows <= 0xffff_ffff_ffff_ffff,
                    0 <= den <= 0xffff_ffff,
            ;
        }
        NgramFreqs { order, counts, keys, base, qtotal: space * num + windows * den }
    }
}

/// The sum of the numerators of the frequencies that `freqs` holds for the
/// n-grams in `keys`.
pub open spec fn freq_num_sum(freqs: NgramFreqs, keys: Seq<u32>) -> int
    decreases keys.len(),
{
    if keys.len() == 0 {
        0
    } else {
        freq_num_sum(freqs, keys.drop_last()) + freqs.spec_freq_or_base(keys.last()).num
    }
}

/// The frequencies held for n-grams that occur are their weights.
pub proof fn lemma_freq_num_sum(
    freqs: NgramFreqs,
    data: Seq<u8>,
    order: int,
    base: BaseCount,
    keys: Seq<u32>,
)
    requires
        1 <= order <= 3,
        data.len() <= usize::MAX,
        freqs.is_freqs_of(data, order, base),
        forall|i: int|
            0 <= i < keys.len() ==> occurrences(
                data,
                order,
                (#[trigger] keys[i]) as int,
                window_count(data),
            ) > 0,
    ensures
        freq_num_sum(freqs, keys) == weight_sum(keys, data, order, base),
    decreases keys.len(),
{
    if keys.len() > 0 {
        let rest = keys.drop_last();
        assert forall|i: int| 0 <= i < rest.len() implies occurrences(
            data,
            order,
            (#[trigger] rest[i]) as int,
            window_count(data),
        ) > 0 by {
            assert(rest[i] == keys[i]);
        }
        lemma_freq_num_sum(freqs, data, order, base, rest);
        let key = keys.last();
        assert(keys[keys.len() - 1] == key);
        let c = occurrences(data, order, key as int, window_count(data));
        lemma_occurrences_bounds(data, order, key as int, window_count(data));
        assert(freqs.counts@.contains_key(key));
        assert(freqs.counts@[key] == c as u64);
        let d = base.den as int;
        assert(0 <= c * d <= 0xffff_ffff_ffff_ffff * 0xffff_ffff) by (nonlinear_arith)
            requires
                0 <= c <= 0xffff_ffff_ffff_ffff,
                0 <= d <= 0xffff_ffff,
        ;
    }
}

/// The frequencies of all n-grams of an order add up to one: the base
/// frequency for each n-gram that does not occur, and the frequencies of
/// those that do, make up the denominator that they all share.
pub proof fn lemma_probability_conservation(
    freqs: NgramFreqs,
    data: Seq<u8>,
    order: int,
    base: BaseCount,
)
    requires
        1 <= order <= 3,
        data.len() <= usize::MAX,
        freqs.is_freqs_of(data, order, base),
    ensures
        freqs.spec_base_freq().den == freqs.qtotal,
        forall|key: u32| (#[trigger] freqs.spec_freq_or_base(key)).den == freqs.qtotal,
        freqs.spec_base_freq().num * (gram_space(order) - freqs.keys@.len()) + freq_num_sum(
            freqs,
            freqs.keys@,
        ) == freqs.qtotal,
{
    let n = window_count(data);
    lemma_first_seen(data, order, n);
    assert forall|i: int| 0 <= i < freqs.keys@.len() implies occurrences(
        data,
        order,
        (#[trigger] freqs.keys@[i]) as int,
        n,
    ) > 0 by {
        assert(freqs.keys@.contains(freqs.keys@[i]));
    }
    lemma_freq_num_sum(freqs, data, order, base, freqs.keys@);
}

/// The statistics of a byte sample.
#[derive(Debug)]
pub struct CorpusStats {
    /// The architecture of the sample; `target` for a window of a file.
    pub arch: String,
    pub ungrams_freq: NgramFreqs,
    pub bigrams_freq: NgramFreqs,
    pub trigrams_freq: NgramFreqs,
}

/// The divergences of a target from a reference by 2-grams and by 3-grams,
/// as fixed-point numbers in millionths.
#[derive(Clone, Copy, Debug, PartialEq, Eq, Structural)]
pub struct Divergences {
    pub bigrams: i32,
    pub trigrams: i32,
}

/// One term of a divergence: the frequency `p` of an n-gram in the target
/// and its frequency `q` in the reference.
#[derive(Clone, Copy, Debug, PartialEq, Eq, Structural)]
pub struct KlTerm {
    pub p: Ratio,
    pub q: Ratio,
}

/// The terms of the divergences of a target from a reference.
#[derive(Debug)]
pub struct KlTerms {
    pub bigrams: Vec<KlTerm>,
    pub trigrams: Vec<KlTerm>,
}

/// One term for each of `keys` that has a frequency in `target` which is
/// not zero, in the order of `keys`: that frequency, and the frequency
/// that `reference` has for the n-gram, or its base frequency.
pub open spec fn spec_kl_terms(keys: Seq<u32>, target: NgramFreqs, reference: NgramFreqs) -> Seq<
    KlTerm,
>
    decreases keys.len(),
{
    if keys.len() == 0 {
        Seq::empty()
    } else {
        let rest = spec_kl_terms(keys.drop_last(), target, reference);
        match target.spec_freq(keys.last()) {
            Some(p) => if p.num != 0 {
                rest.push(KlTerm { p: p, q: reference.spec_freq_or_base(keys.last()) })
            } else {
                rest
            },
            None => rest,
        }
    }
}

impl NgramFreqs {
    /// The terms of the divergence of these frequencies from those of
    /// `reference`: one for each n-gram that occurs here.
    pub fn kl_terms(&self, reference: &NgramFreqs) -> (terms: Vec<KlTerm>)
        ensures
            terms@ == spec_kl_terms(self.keys@, *self, *reference),
    {
        let mut terms: Vec<KlTerm> = Vec::new();
        let mut i: usize = 0;
        while i < self.keys.len()
            invariant
                i <= self.keys@.len(),
                terms@ == spec_kl_terms(self.keys@.take(i as int), *self, *reference),
            decreases self.keys@.len() - i,
        {
            let key = self.keys[i];
            proof {
                assert(self.keys@.take(i + 1).drop_last() =~= self.keys@.take(i as int));
            }
            match self.freq(key) {
                Some(p) => {
                    if p.num != 0 {
                        terms.push(KlTerm { p: p, q: reference.freq_or_base(key) });
                    }
                },
                None => {},
            }
            i += 1;
        }
        proof {
            assert(self.keys@.take(i as int) =~= self.keys@);
        }
        terms
    }
}

impl CorpusStats {
    /// Whether these are the statistics of `data` under the name `arch`,
    /// smoothed by `base`.
    pub open spec fn is_stats_of(&self, arch: Seq<char>, data: Seq<u8>, base: BaseCount) -> bool {
        &&& self.arch@ == arch
        &&& self.ungrams_freq.is_freqs_of(data, 1, base)
        &&& self.bigrams_freq.is_freqs_of(data, 2, base)
        &&& self.trigrams_freq.is_freqs_of(data, 3, base)
    }

    /// Whether these statistics and `other` hold the same name and, for
    /// every order, the same counts, n-grams and total weight.
    pub open spec fn agrees_with(&self, other: &Self) -> bool {
        &&& self.arch@ == other.arch@
        &&& self.ungrams_freq.agrees_with(&other.ungrams_freq)
        &&& self.bigrams_freq.agrees_with(&other.bigrams_freq)
        &&& self.trigrams_freq.agrees_with(&other.trigrams_freq)
    }

    /// The statistics of `data` under the name `arch`, smoothed by
    /// `base_count`.
    pub fn new(arch: String, data: &[u8], base_count: BaseCount) -> (stats: Self)
        ensures
            stats.is_stats_of(arch@, data@, base_count),
    {
        CorpusStats {
            arch,
            ungrams_freq: NgramFreqs::new(data, 1, base_count),
            bigrams_freq: NgramFreqs::new(data, 2, base_count),
            trigrams_freq: NgramFreqs::new(data, 3, base_count),
        }
    }

    /// The terms of the divergences of this target from the reference `q`,
    /// by 2-grams and by 3-grams.
    pub fn kl_terms(&self, q: &Self) -> (terms: KlTerms)
        ensures
            terms.bigrams@ == spec_kl_terms(
                self.bigrams_freq.keys@,
                self.bigrams_freq,
                q.bigrams_freq,
            ),
            terms.trigrams@ == spec_kl_terms(
                self.trigrams_freq.keys@,
                self.trigrams_freq,
                q.trigrams_freq,
            ),
    {
        KlTerms {
            bigrams: self.bigrams_freq.kl_terms(&q.bigrams_freq),
            trigrams: self.trigrams_freq.kl_terms(&q.trigrams_freq),
        }
    }
}

/// Counting is repeatable: statistics of one sample under one name and one
/// base count agree, and so do the terms of their divergences from
/// references that agree.
pub proof fn lemma_counting_is_deterministic(
    a: CorpusStats,
    b: CorpusStats,
    arch: Seq<char>,
    data: Seq<u8>,
    base: BaseCount,
)
    requires
        a.is_stats_of(arch, data, base),
        b.is_stats_of(arch, data, base),
    ensures
        a.agrees_with(&b),
{
}

/// Frequencies that agree give the same terms against references that
/// agree.
pub proof fn lemma_terms_are_deterministic(
    keys: Seq<u32>,
    target_a: NgramFreqs,
    target_b: NgramFreqs,
    reference_a: NgramFreqs,
    reference_b: NgramFreqs,
)
    requires
        target_a.agrees_with(&target_b),
        reference_a.agrees_with(&reference_b),
    ensures
        spec_kl_terms(keys, target_a, reference_a) == spec_kl_terms(
            keys,
            target_b,
            reference_b,
        ),
    decreases keys.len(),
{
    if keys.len() > 0 {
        lemma_terms_are_deterministic(
            keys.drop_last(),
            target_a,
            target_b,
            reference_a,
            reference_b,
        );
    }
}

/// The smoothing count of a reference: one hundredth.
pub open spec fn spec_reference_base() -> BaseCount {
    BaseCount { num: 1, den: 100 }
}

/// The smoothing count of a window of a target: none.
pub open spec fn spec_target_base() -> BaseCount {
    BaseCount { num: 0, den: 1 }
}

/// The name of an architecture from the name of its entry in the corpus,
/// which ends in `.corpus`.
pub open spec fn spec_arch_name(entry_name: Seq<char>) -> Seq<char> {
    spec_trim_end(entry_name, ".corpus"@)
}

/// The statistics of one entry of the corpus.
pub fn corpus_entry(entry_name: &str, data: &[u8]) -> (stats: CorpusStats)
    ensures
        stats.is_stats_of(spec_arch_name(entry_name@), data@, spec_reference_base()),
{
    CorpusStats::new(trim_end(entry_name, ".corpus"), data, BaseCount { num: 1, den: 100 })
}

/// The statistics of every entry of the corpus, in the order of the
/// entries.
pub fn load_corpus(entries: &Vec<(String, Vec<u8>)>) -> (corpus: Vec<CorpusStats>)
    ensures
        corpus@.len() == entries@.len(),
        forall|i: int|
            0 <= i < corpus@.len() ==> (#[trigger] corpus@[i]).is_stats_of(
                spec_arch_name(entries@[i].0@),
                entries@[i].1@,
                spec_reference_base(),
            ),
{
    let mut corpus: Vec<CorpusStats> = Vec::new();
    let mut i: usize = 0;
    while i < entries.len()
        invariant
            i <= entries@.len(),
            corpus@.len() == i,
            forall|k: int|
                0 <= k < i ==> (#[trigger] corpus@[k]).is_stats_of(
                    spec_arch_name(entries@[k].0@),
                    entries@[k].1@,
                    spec_reference_base(),
                ),
        decreases entries@.len() - i,
    {
        corpus.push(corpus_entry(entries[i].0.as_str(), entries[i].1.as_slice()));
        i += 1;
    }
    corpus
}

/// The statistics of the window `range` of `file_data`.
pub fn window_stats(file_data: &[u8], range: &Range<usize>) -> (stats: CorpusStats)
    requires
        range.start <= range.end <= file_data@.len(),
    ensures
        stats.is_stats_of(
            "target"@,
            file_data@.subrange(range.start as int, range.end as int),
            spec_target_base(),
        ),
{
    CorpusStats::new(
        "target".to_owned(),
        slice_subrange(file_data, range.start, range.end),
        BaseCount { num: 0, den: 1 },
    )
}

} // verus!
