use coderec::heuristic::DIV_ONE;
use coderec::{
    calculate_kl, half_window, load_corpus, window_stats, windows, CliJsonOutput, CorpusStats,
    DetectionResult, Divergences, KlLogs, KlTerm, ProcessedDetectionResult, Ratio,
};

struct Lcg(u64);

impl Lcg {
    fn next(&mut self) -> u32 {
        self.0 = self.0.wrapping_mul(6_364_136_223_846_793_005).wrapping_add(1_442_695_040_888_963_407);
        (self.0 >> 33) as u32
    }

    fn below(&mut self, n: u32) -> u8 {
        (self.next() % n) as u8
    }
}

/// Bytes that look like the code of a machine with four-byte instructions:
/// an opcode, a register, an immediate and a fixed last byte, each from a
/// small set that belongs to the machine.
fn code_sample(machine: u8, seed: u64, len: usize) -> Vec<u8> {
    let mut rng = Lcg(seed);
    let mut out = Vec::with_capacity(len + 4);
    while out.len() < len {
        let op = machine.wrapping_mul(37).wrapping_add(rng.below(16) * 3);
        let reg = machine.wrapping_mul(11).wrapping_add(rng.below(8));
        let imm = rng.below(4).wrapping_mul(machine.wrapping_add(1));
        out.extend_from_slice(&[op, reg, imm, machine ^ 0xa5]);
    }
    out.truncate(len);
    out
}

const WORDS: [&str; 24] = [
    "the", "of", "and", "window", "to", "machine", "in", "code", "is", "that", "range", "for",
    "byte", "with", "as", "file", "on", "label", "by", "closest", "this", "count", "from", "text",
];

fn text_sample(seed: u64, len: usize) -> Vec<u8> {
    let mut rng = Lcg(seed);
    let mut out = Vec::with_capacity(len + 16);
    while out.len() < len {
        out.extend_from_slice(WORDS[(rng.next() % 24) as usize].as_bytes());
        out.push(if rng.below(12) == 0 { b'\n' } else { b' ' });
    }
    out.truncate(len);
    out
}

fn random_sample(seed: u64, len: usize) -> Vec<u8> {
    let mut rng = Lcg(seed);
    (0..len).map(|_| (rng.next() >> 8) as u8).collect()
}

const MACHINES: [(&str, u8); 7] = [
    ("X86.corpus", 1),
    ("ARM64.corpus", 2),
    ("MIPSel.corpus", 3),
    ("PPCeb.corpus", 4),
    ("SPARC.corpus", 5),
    ("RISC-V.corpus", 6),
    ("AVR.corpus", 7),
];

fn corpus() -> Vec<CorpusStats> {
    let mut entries: Vec<(String, Vec<u8>)> = MACHINES
        .iter()
        .map(|(name, machine)| (name.to_string(), code_sample(*machine, *machine as u64, 0x10000)))
        .collect();
    entries.push(("_words_en.corpus".to_string(), text_sample(99, 0x10000)));
    load_corpus(&entries)
}

fn ratio(r: &Ratio) -> f64 {
    r.num as f64 / r.den as f64
}

fn fixed(div: f64) -> i32 {
    assert!(!div.is_nan());
    (div * DIV_ONE as f64).round() as i32
}

fn log_of(term: &KlTerm) -> i32 {
    fixed((ratio(&term.p) / ratio(&term.q)).ln())
}

fn compute_kl(target: &CorpusStats, reference: &CorpusStats) -> Divergences {
    let terms = target.kl_terms(reference);
    let logs = KlLogs {
        bigrams: terms.bigrams.iter().map(log_of).collect(),
        trigrams: terms.trigrams.iter().map(log_of).collect(),
    };
    terms.divergences(&logs).unwrap()
}

/// The divergence as the sum of floating-point terms.
fn kl_sum(terms: &[KlTerm]) -> f64 {
    terms.iter().map(|t| ratio(&t.p) * (ratio(&t.p) / ratio(&t.q)).ln()).sum()
}

fn detect(corpus: &[CorpusStats], data: &[u8]) -> ProcessedDetectionResult {
    let w = half_window(data.len());
    assert!(w > 0);
    let items = windows(data.len(), w)
        .into_iter()
        .map(|range| {
            let target = window_stats(data, &range);
            let divs: Vec<Divergences> = corpus.iter().map(|r| compute_kl(&target, r)).collect();
            (range, calculate_kl(corpus, &divs))
        })
        .collect();
    ProcessedDetectionResult::from(DetectionResult::from(items))
}

fn labels(res: &ProcessedDetectionResult) -> Vec<Option<&str>> {
    res.range_to_final_result.iter().map(|(_, label)| label.as_deref()).collect()
}

#[test]
fn all_zero_file_does_not_oscillate() {
    let corpus = corpus();
    let res = detect(&corpus, &vec![0u8; 0x2000]);
    assert_eq!(res.win_sz, 0x400);
    let labels = labels(&res);
    assert_eq!(labels.len(), 16);
    assert!(labels.iter().all(|l| *l == labels[0]));
    let out = CliJsonOutput::from("zeros", &res);
    match labels[0] {
        None => assert!(out.range_results.is_empty()),
        Some(arch) => assert_eq!(out.range_results, vec![(0..0x2000, 0x2000, arch.to_string())]),
    }
}

#[test]
fn random_bytes_get_no_label() {
    let corpus = corpus();
    let res = detect(&corpus, &random_sample(7, 0x10000));
    assert_eq!(res.win_sz, 0x800);
    let labels = labels(&res);
    assert_eq!(labels.len(), 64);
    assert!(labels.iter().all(|l| l.is_none()));
    assert!(res.arch_to_final_ranges.entries.is_empty());
    assert!(CliJsonOutput::from("random", &res).range_results.is_empty());
}

#[test]
fn text_is_labelled_as_words() {
    let corpus = corpus();
    let res = detect(&corpus, &text_sample(2024, 0x4000));
    assert_eq!(res.win_sz, 0x400);
    let labels = labels(&res);
    assert_eq!(labels.len(), 32);
    let words = labels.iter().filter(|l| l.is_some_and(|a| a.starts_with("_words"))).count();
    assert!(labels.iter().all(|l| l.is_none() || l.is_some_and(|a| a.starts_with("_words"))));
    assert!(words >= 30);
}

#[test]
fn two_machines_one_after_the_other() {
    let corpus = corpus();
    let mut data = code_sample(2, 2, 0x4000);
    data.extend_from_slice(&code_sample(5, 5, 0x4000));
    let res = detect(&corpus, &data);
    assert_eq!(res.win_sz, 0x400);
    let labels = labels(&res);
    assert_eq!(labels.len(), 64);
    for (i, label) in labels.iter().enumerate() {
        if i < 31 {
            assert_eq!(*label, Some("ARM64"));
        } else if i > 31 {
            assert_eq!(*label, Some("SPARC"));
        } else {
            assert!(label.is_none() || *label == Some("ARM64") || *label == Some("SPARC"));
        }
    }
    let out = CliJsonOutput::from("both", &res);
    assert!(out.range_results.len() == 2);
    assert_eq!(out.range_results[0].0.start, 0);
    assert_eq!(out.range_results[0].2, "ARM64");
    assert_eq!(out.range_results[1].0.end, 0x8000);
    assert_eq!(out.range_results[1].2, "SPARC");
}

#[test]
fn file_of_two_bytes() {
    let corpus = corpus();
    let data = [0x90u8, 0xc3];
    let ranges = windows(data.len(), half_window(data.len()));
    assert_eq!(ranges, vec![0..2]);
    let target = window_stats(&data, &ranges[0]);
    assert!(target.ungrams_freq.keys.is_empty());
    assert!(target.bigrams_freq.keys.is_empty());
    assert!(target.trigrams_freq.keys.is_empty());
    for reference in &corpus {
        assert_eq!(compute_kl(&target, reference), Divergences { bigrams: 0, trigrams: 0 });
    }
    let res = detect(&corpus, &data);
    assert_eq!(res.win_sz, 2);
    assert_eq!(res.range_to_final_result, vec![(0..2, None)]);
    assert_eq!(res.max_kl_bg, Some(0));
    assert_eq!(res.min_kl_bg, None);
    assert_eq!(res.range_to_result_tg[0].1.range_mean, 0);
    assert_eq!(res.range_to_result_tg[0].1.range_var, 0);
    assert!(CliJsonOutput::from("two", &res).range_results.is_empty());
}

#[test]
fn empty_file_and_empty_corpus() {
    let corpus = corpus();
    let res = detect(&corpus, &[]);
    assert!(res.range_to_final_result.is_empty());
    assert!(CliJsonOutput::from("empty", &res).range_results.is_empty());
    let res = detect(&[], &code_sample(1, 1, 0x1000));
    assert!(res.range_to_final_result.iter().all(|(_, label)| label.is_none()));
    assert!(res.idx_to_arch.is_empty());
    assert!(CliJsonOutput::from("no corpus", &res).range_results.is_empty());
}

#[test]
fn detection_is_repeatable() {
    let data = {
        let mut data = code_sample(1, 11, 0x1800);
        data.extend_from_slice(&text_sample(5, 0x1000));
        data.extend_from_slice(&random_sample(3, 0x800));
        data
    };
    let first = detect(&corpus(), &data);
    let second = detect(&corpus(), &data);
    assert_eq!(first.win_sz, second.win_sz);
    assert_eq!(first.idx_to_arch, second.idx_to_arch);
    assert_eq!(
        (first.max_kl_bg, first.min_kl_bg, first.max_kl_tg, first.min_kl_tg),
        (second.max_kl_bg, second.min_kl_bg, second.max_kl_tg, second.min_kl_tg)
    );
    assert_eq!(first.range_to_final_result, second.range_to_final_result);
    assert_eq!(first.arch_to_final_ranges.entries, second.arch_to_final_ranges.entries);
    assert_eq!(first.kl_arch_to_range_bg.entries, second.kl_arch_to_range_bg.entries);
    assert_eq!(first.kl_arch_to_range_tg.entries, second.kl_arch_to_range_tg.entries);
    for (a, b) in first.range_to_result_tg.iter().zip(second.range_to_result_tg.iter()) {
        assert_eq!(a.0, b.0);
        assert_eq!(
            (&a.1.arch, a.1.div, a.1.range_mean, a.1.range_var),
            (&b.1.arch, b.1.div, b.1.range_mean, b.1.range_var)
        );
    }
    assert_eq!(
        CliJsonOutput::from("f", &first).range_results,
        CliJsonOutput::from("f", &second).range_results
    );
}

#[test]
fn a_sample_is_close_to_itself() {
    for (name, machine) in MACHINES {
        let data = code_sample(machine, machine as u64, 0x80000);
        let reference = coderec::corpus_entry(name, &data);
        let target = window_stats(&data, &(0..data.len()));
        let divs = compute_kl(&target, &reference);
        assert!(divs.bigrams <= 500_000 && divs.trigrams <= 500_000);
        assert!(divs.bigrams >= -1 && divs.trigrams >= -1);
    }
}

#[test]
fn exact_sum_is_close_to_the_sum_of_floating_point_terms() {
    let corpus = corpus();
    let data = code_sample(3, 17, 0x800);
    let target = window_stats(&data, &(0..data.len()));
    for reference in &corpus {
        let terms = target.kl_terms(reference);
        let divs = compute_kl(&target, reference);
        assert!((divs.bigrams as f64 / 1e6 - kl_sum(&terms.bigrams)).abs() < 2e-6);
        assert!((divs.trigrams as f64 / 1e6 - kl_sum(&terms.trigrams)).abs() < 2e-6);
    }
}

#[test]
fn divergences_are_not_negative() {
    let corpus = corpus();
    for seed in 0..4u64 {
        let data = random_sample(seed, 0x300);
        let target = window_stats(&data, &(0..data.len()));
        for reference in &corpus {
            let divs = compute_kl(&target, reference);
            assert!(divs.bigrams >= 0 && divs.trigrams >= 0);
        }
    }
}
