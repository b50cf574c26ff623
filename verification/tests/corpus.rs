use coderec::ngram::{count_grams, gram_at};
use coderec::{
    corpus_entry, load_corpus, window_stats, BaseCount, CorpusStats, KlTerm, NgramFreqs, Ratio,
};

const HUNDREDTH: BaseCount = BaseCount { num: 1, den: 100 };
const NONE: BaseCount = BaseCount { num: 0, den: 1 };

fn key2(a: u8, b: u8) -> u32 {
    (a as u32) << 8 | b as u32
}

fn key3(a: u8, b: u8, c: u8) -> u32 {
    (a as u32) << 16 | (b as u32) << 8 | c as u32
}

/// The sum of the frequencies of all n-grams of an order, as numerator and
/// denominator.
fn total_probability(freqs: &NgramFreqs, space: u128) -> (u128, u128) {
    let seen: u128 = freqs.keys.iter().map(|key| freqs.freq(*key).unwrap().num).sum();
    let unseen = freqs.base_freq().num * (space - freqs.keys.len() as u128);
    (seen + unseen, freqs.qtotal)
}

#[test]
fn grams_are_packed_first_byte_highest() {
    let data = [1u8, 2, 3, 0xff];
    assert_eq!(gram_at(&data, 0, 1), 1);
    assert_eq!(gram_at(&data, 0, 2), 0x0102);
    assert_eq!(gram_at(&data, 0, 3), 0x010203);
    assert_eq!(gram_at(&data, 1, 3), 0x0203ff);
    assert_eq!(gram_at(&[0xff, 0xff, 0xff], 0, 3), 0xffffff);
}

#[test]
fn every_window_counts_once_for_each_order() {
    let stats = CorpusStats::new("x".to_string(), b"abcab", NONE);
    assert_eq!(stats.arch, "x");
    assert_eq!(stats.ungrams_freq.keys, vec![b'a' as u32, b'b' as u32, b'c' as u32]);
    assert_eq!(stats.ungrams_freq.counts.len(), 3);
    assert_eq!(stats.ungrams_freq.counts[&(b'a' as u32)], 1);
    assert_eq!(stats.ungrams_freq.counts[&(b'b' as u32)], 1);
    assert_eq!(stats.ungrams_freq.counts[&(b'c' as u32)], 1);
    assert_eq!(
        stats.bigrams_freq.keys,
        vec![key2(b'a', b'b'), key2(b'b', b'c'), key2(b'c', b'a')]
    );
    assert_eq!(stats.bigrams_freq.counts.len(), 3);
    assert_eq!(
        stats.trigrams_freq.keys,
        vec![key3(b'a', b'b', b'c'), key3(b'b', b'c', b'a'), key3(b'c', b'a', b'b')]
    );
    assert_eq!(stats.trigrams_freq.counts.len(), 3);
    assert_eq!(stats.ungrams_freq.order, 1);
    assert_eq!(stats.bigrams_freq.order, 2);
    assert_eq!(stats.trigrams_freq.order, 3);
}

#[test]
fn repeated_grams_are_counted_and_listed_once() {
    let (counts, keys) = count_grams(b"abababa", 2);
    assert_eq!(keys, vec![key2(b'a', b'b'), key2(b'b', b'a')]);
    assert_eq!(counts[&key2(b'a', b'b')], 3);
    assert_eq!(counts[&key2(b'b', b'a')], 2);
    let (counts, keys) = count_grams(b"aaaa", 3);
    assert_eq!(keys, vec![key3(b'a', b'a', b'a')]);
    assert_eq!(counts[&key3(b'a', b'a', b'a')], 2);
    let (counts, keys) = count_grams(b"aaaa", 1);
    assert_eq!(keys, vec![b'a' as u32]);
    assert_eq!(counts[&(b'a' as u32)], 2);
}

#[test]
fn short_samples_have_no_grams() {
    for data in [&b""[..], &b"a"[..], &b"ab"[..]] {
        let stats = CorpusStats::new("target".to_string(), data, NONE);
        assert!(stats.ungrams_freq.keys.is_empty());
        assert!(stats.ungrams_freq.counts.is_empty());
        assert!(stats.bigrams_freq.keys.is_empty());
        assert!(stats.bigrams_freq.counts.is_empty());
        assert!(stats.trigrams_freq.keys.is_empty());
        assert!(stats.trigrams_freq.counts.is_empty());
        assert_eq!(stats.trigrams_freq.qtotal, 0);
        assert_eq!(stats.trigrams_freq.base_freq(), Ratio { num: 0, den: 0 });
    }
    let stats = CorpusStats::new("ref".to_string(), b"ab", HUNDREDTH);
    assert_eq!(stats.ungrams_freq.qtotal, 0x100);
    assert_eq!(stats.bigrams_freq.qtotal, 0x1_0000);
    assert_eq!(stats.trigrams_freq.qtotal, 0x100_0000);
}

#[test]
fn frequencies_of_a_smoothed_sample() {
    let stats = CorpusStats::new("ref".to_string(), b"abcab", HUNDREDTH);
    assert_eq!(stats.ungrams_freq.qtotal, 256 + 300);
    assert_eq!(stats.bigrams_freq.qtotal, 65_536 + 300);
    assert_eq!(stats.trigrams_freq.qtotal, 16_777_216 + 300);
    assert_eq!(stats.ungrams_freq.freq(b'a' as u32), Some(Ratio { num: 101, den: 556 }));
    assert_eq!(stats.ungrams_freq.freq(b'd' as u32), None);
    assert_eq!(stats.ungrams_freq.base_freq(), Ratio { num: 1, den: 556 });
    assert_eq!(stats.ungrams_freq.freq_or_base(b'd' as u32), Ratio { num: 1, den: 556 });
    assert_eq!(stats.ungrams_freq.freq_or_base(b'a' as u32), Ratio { num: 101, den: 556 });
    assert_eq!(
        stats.bigrams_freq.freq(key2(b'b', b'c')),
        Some(Ratio { num: 101, den: 65_836 })
    );
    assert_eq!(stats.bigrams_freq.freq(key2(b'a', b'a')), None);
    assert_eq!(
        stats.trigrams_freq.freq(key3(b'c', b'a', b'b')),
        Some(Ratio { num: 101, den: 16_777_516 })
    );
}

#[test]
fn frequencies_without_smoothing() {
    let stats = CorpusStats::new("target".to_string(), b"aaaab", NONE);
    assert_eq!(stats.trigrams_freq.qtotal, 3);
    assert_eq!(
        stats.trigrams_freq.freq(key3(b'a', b'a', b'a')),
        Some(Ratio { num: 2, den: 3 })
    );
    assert_eq!(
        stats.trigrams_freq.freq(key3(b'a', b'a', b'b')),
        Some(Ratio { num: 1, den: 3 })
    );
    assert_eq!(stats.trigrams_freq.base_freq(), Ratio { num: 0, den: 3 });
    assert_eq!(stats.ungrams_freq.freq(b'a' as u32), Some(Ratio { num: 3, den: 3 }));
    assert_eq!(stats.ungrams_freq.freq(b'b' as u32), None);
}

#[test]
fn probabilities_add_up_to_one() {
    let mut data = Vec::new();
    let mut x: u32 = 12345;
    for _ in 0..5000 {
        x = x.wrapping_mul(1_103_515_245).wrapping_add(12345);
        data.push((x >> 16) as u8 % 23);
    }
    for base in [HUNDREDTH, NONE, BaseCount { num: 7, den: 3 }, BaseCount { num: u32::MAX, den: u32::MAX }] {
        let stats = CorpusStats::new("ref".to_string(), &data, base);
        let (num, den) = total_probability(&stats.ungrams_freq, 0x100);
        assert_eq!(num, den);
        assert_eq!(den, 0x100 * base.num as u128 + 4998 * base.den as u128);
        let (num, den) = total_probability(&stats.bigrams_freq, 0x1_0000);
        assert_eq!(num, den);
        assert_eq!(den, 0x1_0000 * base.num as u128 + 4998 * base.den as u128);
        let (num, den) = total_probability(&stats.trigrams_freq, 0x100_0000);
        assert_eq!(num, den);
        assert_eq!(den, 0x100_0000 * base.num as u128 + 4998 * base.den as u128);
    }
}

#[test]
fn terms_pair_the_target_with_the_reference() {
    let target = CorpusStats::new("target".to_string(), b"aaaab", NONE);
    let reference = CorpusStats::new("ref".to_string(), b"aaaa", HUNDREDTH);
    let terms = target.kl_terms(&reference);
    // Target 2-grams: aa three times. Reference: aa twice.
    assert_eq!(
        terms.bigrams,
        vec![KlTerm { p: Ratio { num: 3, den: 3 }, q: Ratio { num: 201, den: 65_736 } }]
    );
    // Target 3-grams: aaa twice, aab once. Reference: aaa twice, no aab.
    assert_eq!(
        terms.trigrams,
        vec![
            KlTerm { p: Ratio { num: 2, den: 3 }, q: Ratio { num: 201, den: 16_777_416 } },
            KlTerm { p: Ratio { num: 1, den: 3 }, q: Ratio { num: 1, den: 16_777_416 } },
        ]
    );
}

#[test]
fn terms_of_an_empty_target() {
    let target = CorpusStats::new("target".to_string(), b"ab", NONE);
    let reference = CorpusStats::new("ref".to_string(), b"abcdef", HUNDREDTH);
    let terms = target.kl_terms(&reference);
    assert!(terms.bigrams.is_empty());
    assert!(terms.trigrams.is_empty());
}

#[test]
fn terms_skip_frequencies_of_zero() {
    // Frequencies as no sample gives them: an n-gram listed with count 0.
    let mut counts = std::collections::HashMap::new();
    counts.insert(5u32, 0u64);
    counts.insert(6u32, 2u64);
    let target = NgramFreqs { order: 2, counts, keys: vec![5, 6, 7], base: NONE, qtotal: 2 };
    let reference = NgramFreqs::new(b"", 2, HUNDREDTH);
    assert_eq!(
        target.kl_terms(&reference),
        vec![KlTerm { p: Ratio { num: 2, den: 2 }, q: Ratio { num: 1, den: 0x1_0000 } }]
    );
}

#[test]
fn corpus_suffix_is_stripped() {
    assert_eq!(corpus_entry("X86.corpus", b"abc").arch, "X86");
    assert_eq!(corpus_entry("#6502#cc65.corpus", b"abc").arch, "#6502#cc65");
    assert_eq!(corpus_entry("a.corpus.corpus", b"abc").arch, "a");
    assert_eq!(corpus_entry(".corpus", b"abc").arch, "");
    assert_eq!(corpus_entry("corpus", b"abc").arch, "corpus");
    assert_eq!(corpus_entry("x.corpusx", b"abc").arch, "x.corpusx");
    assert_eq!(corpus_entry("", b"abc").arch, "");
    assert_eq!(corpus_entry("é.corpus", b"abc").arch, "é");
    assert_eq!(coderec::names::trim_end("abab", ""), "abab");
    assert_eq!(coderec::names::trim_end("xabab", "ab"), "x");
    assert_eq!(coderec::names::trim_end("aaa", "aa"), "a");
}

#[test]
fn corpus_is_loaded_in_order_with_a_hundredth() {
    let entries = vec![
        ("MIPS.corpus".to_string(), b"abcab".to_vec()),
        ("ARM.corpus".to_string(), b"zz".to_vec()),
    ];
    let corpus = load_corpus(&entries);
    assert_eq!(corpus.len(), 2);
    assert_eq!(corpus[0].arch, "MIPS");
    assert_eq!(corpus[0].trigrams_freq.base, HUNDREDTH);
    assert_eq!(corpus[0].trigrams_freq.qtotal, 16_777_216 + 300);
    assert_eq!(corpus[1].arch, "ARM");
    assert_eq!(corpus[1].bigrams_freq.qtotal, 65_536);
    assert!(load_corpus(&vec![]).is_empty());
}

#[test]
fn window_statistics_are_not_smoothed() {
    let data = b"xxabcabyy";
    let stats = window_stats(data, &(2..7));
    assert_eq!(stats.arch, "target");
    assert_eq!(stats.trigrams_freq.base, NONE);
    assert_eq!(
        stats.trigrams_freq.keys,
        vec![key3(b'a', b'b', b'c'), key3(b'b', b'c', b'a'), key3(b'c', b'a', b'b')]
    );
    assert_eq!(stats.trigrams_freq.qtotal, 3);
    let empty = window_stats(data, &(4..4));
    assert!(empty.trigrams_freq.keys.is_empty());
}
