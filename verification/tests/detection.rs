use coderec::{
    calculate_kl, ArchMap, BaseCount, CorpusStats, DetectionResult, Divergences, KlRes,
    ProcessedDetectionResult, RangeFullKlRes, RangeMap,
};
use std::ops::Range;

fn stats(arch: &str) -> CorpusStats {
    CorpusStats::new(arch.to_string(), b"abcabc", BaseCount { num: 1, den: 100 })
}

fn kl(arch: &str, div: i32) -> KlRes {
    KlRes { arch: arch.to_string(), div }
}

fn pairs(list: &[KlRes]) -> Vec<(&str, i32)> {
    list.iter().map(|r| (r.arch.as_str(), r.div)).collect()
}

fn full(bg: &[(&str, i32)], tg: &[(&str, i32)]) -> RangeFullKlRes {
    RangeFullKlRes {
        kl_bg: bg.iter().map(|(a, d)| kl(a, *d)).collect(),
        kl_tg: tg.iter().map(|(a, d)| kl(a, *d)).collect(),
    }
}

fn names<T>(map: &ArchMap<T>) -> Vec<&str> {
    map.entries.iter().map(|(name, _)| name.as_str()).collect()
}

#[test]
fn ranking_is_ascending_and_stable() {
    let corpus = vec![stats("A"), stats("B"), stats("C"), stats("D")];
    let divs = vec![
        Divergences { bigrams: 3, trigrams: 1 },
        Divergences { bigrams: 1, trigrams: 3 },
        Divergences { bigrams: 1, trigrams: 2 },
        Divergences { bigrams: -5, trigrams: 3 },
    ];
    let res = calculate_kl(&corpus, &divs);
    assert_eq!(pairs(&res.kl_bg), vec![("D", -5), ("B", 1), ("C", 1), ("A", 3)]);
    assert_eq!(pairs(&res.kl_tg), vec![("A", 1), ("C", 2), ("B", 3), ("D", 3)]);
}

#[test]
fn ranking_at_the_ends_of_the_type() {
    let corpus = vec![stats("A"), stats("B"), stats("C")];
    let divs = vec![
        Divergences { bigrams: i32::MAX, trigrams: 0 },
        Divergences { bigrams: i32::MIN, trigrams: i32::MAX },
        Divergences { bigrams: 0, trigrams: i32::MIN },
    ];
    let res = calculate_kl(&corpus, &divs);
    assert_eq!(pairs(&res.kl_bg), vec![("B", i32::MIN), ("C", 0), ("A", i32::MAX)]);
    assert_eq!(pairs(&res.kl_tg), vec![("C", i32::MIN), ("A", 0), ("B", i32::MAX)]);
}

#[test]
fn ranking_reads_the_lists_side_by_side() {
    let corpus = vec![stats("A"), stats("B"), stats("C")];
    let divs = vec![Divergences { bigrams: 2, trigrams: 1 }, Divergences { bigrams: 1, trigrams: 2 }];
    let res = calculate_kl(&corpus, &divs);
    assert_eq!(pairs(&res.kl_bg), vec![("B", 1), ("A", 2)]);
    assert_eq!(pairs(&res.kl_tg), vec![("A", 1), ("B", 2)]);
    let res = calculate_kl(&corpus[..1], &divs);
    assert_eq!(pairs(&res.kl_bg), vec![("A", 2)]);
    let res = calculate_kl(&[], &divs);
    assert!(res.kl_bg.is_empty() && res.kl_tg.is_empty());
}

#[test]
fn results_are_indexed_by_architecture_and_by_range() {
    let items = vec![
        (0..4, full(&[("b", 1), ("a", 2), ("B", 3)], &[("a", 10), ("B", 20), ("b", 30)])),
        (2..6, full(&[("a", 4), ("b", 5), ("B", 6)], &[("B", 40), ("b", 50), ("a", 60)])),
    ];
    let res = DetectionResult::from(items);
    // Names stand in the order of their bytes.
    assert_eq!(names(&res.kl_bg_arch_to_range), vec!["B", "a", "b"]);
    assert_eq!(names(&res.kl_tg_arch_to_range), vec!["B", "a", "b"]);
    assert_eq!(res.kl_bg_arch_to_range.entries[0].1, vec![(0..4, 3), (2..6, 6)]);
    assert_eq!(res.kl_bg_arch_to_range.entries[1].1, vec![(0..4, 2), (2..6, 4)]);
    assert_eq!(res.kl_bg_arch_to_range.entries[2].1, vec![(0..4, 1), (2..6, 5)]);
    assert_eq!(res.kl_tg_arch_to_range.entries[0].1, vec![(0..4, 20), (2..6, 40)]);
    assert_eq!(res.kl_tg_arch_to_range.entries[1].1, vec![(0..4, 10), (2..6, 60)]);
    assert_eq!(res.kl_tg_arch_to_range.entries[2].1, vec![(0..4, 30), (2..6, 50)]);
    // Ranges stand in the order in which they came.
    assert_eq!(res.kl_bg_range_to_arch.entries.len(), 2);
    assert_eq!(res.kl_bg_range_to_arch.entries[0].0, 0..4);
    assert_eq!(
        res.kl_bg_range_to_arch.entries[0].1,
        vec![("b".to_string(), 1), ("a".to_string(), 2), ("B".to_string(), 3)]
    );
    assert_eq!(res.kl_bg_range_to_arch.entries[1].0, 2..6);
    assert_eq!(
        res.kl_tg_range_to_arch.entries[1].1,
        vec![("B".to_string(), 40), ("b".to_string(), 50), ("a".to_string(), 60)]
    );
}

#[test]
fn repeated_names_and_ranges_share_a_list() {
    let items = vec![
        (8..9, full(&[("x", 1), ("x", 2)], &[("x", 3), ("y", 4)])),
        (0..1, full(&[("y", 5)], &[("y", 6)])),
        (8..9, full(&[("y", 7)], &[("x", 8)])),
        (8..10, full(&[("z", 9), ("w", 0)], &[("z", 9)])),
        (3..4, full(&[], &[("q", 1)])),
    ];
    let res = DetectionResult::from(items);
    assert_eq!(names(&res.kl_bg_arch_to_range), vec!["x", "y", "z"]);
    assert_eq!(res.kl_bg_arch_to_range.entries[0].1, vec![(8..9, 1), (8..9, 2)]);
    assert_eq!(res.kl_bg_arch_to_range.entries[1].1, vec![(0..1, 5), (8..9, 7)]);
    assert_eq!(res.kl_bg_arch_to_range.entries[2].1, vec![(8..10, 9)]);
    assert_eq!(names(&res.kl_tg_arch_to_range), vec!["x", "y", "z"]);
    assert_eq!(res.kl_tg_arch_to_range.entries[0].1, vec![(8..9, 3), (8..9, 8)]);
    assert_eq!(res.kl_tg_arch_to_range.entries[1].1, vec![(8..9, 4), (0..1, 6)]);
    let ranges: Vec<Range<usize>> =
        res.kl_bg_range_to_arch.entries.iter().map(|(r, _)| r.clone()).collect();
    assert_eq!(ranges, vec![8..9, 0..1, 8..10]);
    assert_eq!(
        res.kl_bg_range_to_arch.entries[0].1,
        vec![("x".to_string(), 1), ("x".to_string(), 2), ("y".to_string(), 7)]
    );
    assert_eq!(
        res.kl_tg_range_to_arch.entries[0].1,
        vec![("x".to_string(), 3), ("y".to_string(), 4), ("x".to_string(), 8)]
    );
}

#[test]
fn maps_keep_their_order() {
    let mut by_arch: ArchMap<u8> = ArchMap::new();
    for (name, item) in [("m", 1), ("a", 2), ("z", 3), ("m", 4), ("", 5), ("ma", 6), ("M", 7)] {
        by_arch.push(&name.to_string(), item);
    }
    assert_eq!(names(&by_arch), vec!["", "M", "a", "m", "ma", "z"]);
    assert_eq!(by_arch.entries[3].1, vec![1, 4]);
    let mut by_range: RangeMap<u8> = RangeMap::new();
    for (range, item) in [(5..6, 1), (0..6, 2), (5..6, 3), (5..7, 4), (0..6, 5)] {
        by_range.push(&range, item);
    }
    assert_eq!(
        by_range.entries,
        vec![(5..6, vec![1, 3]), (0..6, vec![2, 5]), (5..7, vec![4])]
    );
}

fn processed(items: Vec<(Range<usize>, RangeFullKlRes)>) -> ProcessedDetectionResult {
    ProcessedDetectionResult::from(DetectionResult::from(items))
}

#[test]
fn processing_summarizes_each_range() {
    let same = |divs: &[(&str, i32)]| full(divs, divs);
    let items = vec![
        (
            0..0x200,
            same(&[
                ("ARM", 9_000_000),
                ("X86", 1_000_000),
                ("MIPS", 9_000_000),
                ("PPC", 9_000_000),
                ("SPARC", 9_000_000),
                ("AVR", 9_000_000),
                ("M68k", 11_000_000),
            ]),
        ),
        (
            0x100..0x300,
            same(&[
                ("ARM", 8_000_000),
                ("X86", 8_000_000),
                ("MIPS", 8_000_000),
                ("PPC", 8_000_000),
                ("SPARC", 8_000_000),
                ("AVR", 8_000_000),
                ("M68k", 8_000_000),
            ]),
        ),
    ];
    let res = processed(items);
    assert_eq!(res.win_sz, 0x200);
    assert_eq!(res.idx_to_arch, vec!["ARM", "AVR", "M68k", "MIPS", "PPC", "SPARC", "X86"]);
    assert_eq!(res.arch_to_idx("ARM"), Some(0));
    assert_eq!(res.arch_to_idx("X86"), Some(6));
    assert_eq!(res.arch_to_idx("x86"), None);
    assert_eq!(res.max_kl_bg, Some(11_000_000));
    assert_eq!(res.min_kl_bg, Some(1_000_000));
    assert_eq!(res.max_kl_tg, Some(11_000_000));
    assert_eq!(res.min_kl_tg, Some(1_000_000));
    assert_eq!(res.range_to_result_bg.len(), 2);
    let (range, first) = &res.range_to_result_bg[0];
    assert_eq!(*range, 0..0x200);
    assert_eq!(first.arch, "X86");
    assert_eq!(first.div, 1_000_000);
    // Sum 57 000 000 over 7.
    assert_eq!(first.range_mean, 8_142_857);
    // Squared distances from the rounded mean, over 7.
    let devs: [i64; 7] = [857_143, -7_142_857, 857_143, 857_143, 857_143, 857_143, 2_857_143];
    let expected: i64 = devs.iter().map(|d| d * d).sum::<i64>() / 7;
    assert_eq!(first.range_var, expected as u64);
    let (range, second) = &res.range_to_result_tg[1];
    assert_eq!(*range, 0x100..0x300);
    // Of equal divergences the first in the list wins.
    assert_eq!(second.arch, "ARM");
    assert_eq!(second.div, 8_000_000);
    assert_eq!(second.range_mean, 8_000_000);
    assert_eq!(second.range_var, 0);
    assert_eq!(
        res.range_to_final_result,
        vec![(0..0x200, Some("X86".to_string())), (0x100..0x300, None)]
    );
    assert_eq!(res.arch_to_final_ranges.entries, vec![("X86".to_string(), vec![0..0x200])]);
    assert_eq!(names(&res.kl_arch_to_range_bg).len(), 7);
    assert_eq!(res.kl_arch_to_range_tg.entries[6].1, vec![(0..0x200, 1_000_000), (0x100..0x300, 8_000_000)]);
}

#[test]
fn global_minimum_has_a_floor() {
    let res = processed(vec![
        (0..10, full(&[("a", 0), ("b", 99_999), ("c", 100_000)], &[("a", 0), ("b", 99_999), ("c", 50)])),
        (5..15, full(&[("a", 700_000), ("b", -3), ("c", 100_001)], &[("a", -1), ("b", 2), ("c", 3)])),
    ]);
    assert_eq!(res.min_kl_bg, Some(100_000));
    assert_eq!(res.max_kl_bg, Some(700_000));
    assert_eq!(res.min_kl_tg, None);
    assert_eq!(res.max_kl_tg, Some(99_999));
}

#[test]
fn labels_are_inverted_by_architecture() {
    let win = |div_x: i32, div_a: i32| {
        let divs: Vec<(&str, i32)> = vec![
            ("X86", div_x),
            ("ARM", div_a),
            ("c", 9_000_000),
            ("d", 9_000_000),
            ("e", 9_000_000),
            ("f", 9_000_000),
            ("g", 9_000_000),
        ];
        full(&divs, &divs)
    };
    let res = processed(vec![
        (0..2, win(1_000_000, 9_000_000)),
        (1..3, win(9_000_000, 1_000_000)),
        (2..4, win(9_000_000, 9_000_000)),
        (3..5, win(1_000_000, 9_000_000)),
        (4..6, win(9_000_000, 500_000)),
    ]);
    let labels: Vec<Option<&str>> =
        res.range_to_final_result.iter().map(|(_, l)| l.as_deref()).collect();
    assert_eq!(labels, vec![Some("X86"), Some("ARM"), None, Some("X86"), Some("ARM")]);
    assert_eq!(
        res.arch_to_final_ranges.entries,
        vec![("ARM".to_string(), vec![1..3, 4..6]), ("X86".to_string(), vec![0..2, 3..5])]
    );
}

#[test]
fn nothing_to_process() {
    let res = processed(vec![]);
    assert_eq!(res.win_sz, 0);
    assert_eq!(res.max_kl_bg, None);
    assert_eq!(res.min_kl_bg, None);
    assert_eq!(res.max_kl_tg, None);
    assert_eq!(res.min_kl_tg, None);
    assert!(res.idx_to_arch.is_empty());
    assert!(res.range_to_result_bg.is_empty());
    assert!(res.range_to_result_tg.is_empty());
    assert!(res.range_to_final_result.is_empty());
    assert!(res.arch_to_final_ranges.entries.is_empty());
    // Windows without a reference to be scored against leave no range.
    let res = processed(vec![(0..4, full(&[], &[])), (2..6, full(&[], &[]))]);
    assert!(res.range_to_final_result.is_empty());
    assert_eq!(res.win_sz, 0);
}

#[test]
fn window_size_is_that_of_the_first_range() {
    let res = processed(vec![
        (4..10, full(&[("a", 1)], &[("a", 1)])),
        (0..100, full(&[("a", 1)], &[("a", 1)])),
    ]);
    assert_eq!(res.win_sz, 6);
}

#[test]
fn alignment_of_the_indexes_by_range() {
    let res = DetectionResult::from(vec![
        (0..4, full(&[("a", 1)], &[("a", 2)])),
        (2..6, full(&[("a", 3)], &[("a", 4)])),
    ]);
    assert!(res.is_aligned());
    assert!(DetectionResult::from(vec![]).is_aligned());
    let mut broken = DetectionResult::from(vec![(0..4, full(&[("a", 1)], &[("a", 2)]))]);
    broken.kl_tg_range_to_arch.entries[0].0 = 0..5;
    assert!(!broken.is_aligned());
    let mut broken = DetectionResult::from(vec![(0..4, full(&[("a", 1)], &[("a", 2)]))]);
    broken.kl_bg_range_to_arch.entries[0].1.clear();
    assert!(!broken.is_aligned());
    let mut broken = DetectionResult::from(vec![(0..4, full(&[("a", 1)], &[("a", 2)]))]);
    broken.kl_tg_range_to_arch.entries.clear();
    assert!(!broken.is_aligned());
}
