use coderec::{ArchMap, CliJsonOutput, ProcessedDetectionResult};
use std::ops::Range;

fn result_with(labels: Vec<(Range<usize>, Option<&str>)>) -> ProcessedDetectionResult {
    ProcessedDetectionResult {
        win_sz: 0,
        max_kl_bg: None,
        min_kl_bg: None,
        max_kl_tg: None,
        min_kl_tg: None,
        range_to_result_bg: vec![],
        range_to_result_tg: vec![],
        idx_to_arch: vec![],
        kl_arch_to_range_bg: ArchMap::new(),
        kl_arch_to_range_tg: ArchMap::new(),
        range_to_final_result: labels
            .into_iter()
            .map(|(range, label)| (range, label.map(|l| l.to_string())))
            .collect(),
        arch_to_final_ranges: ArchMap::new(),
    }
}

fn region(range: Range<usize>, arch: &str) -> (Range<usize>, usize, String) {
    let len = range.end - range.start;
    (range, len, arch.to_string())
}

#[test]
fn runs_of_one_label_are_fused() {
    let res = result_with(vec![
        (0x000..0x200, Some("X86")),
        (0x100..0x300, Some("X86")),
        (0x200..0x400, Some("X86")),
        (0x300..0x500, None),
        (0x400..0x600, Some("X86")),
        (0x500..0x700, Some("ARM")),
        (0x600..0x800, Some("ARM")),
        (0x700..0x800, None),
    ]);
    let out = CliJsonOutput::from("firmware.bin", &res);
    assert_eq!(out.file, "firmware.bin");
    assert_eq!(
        out.range_results,
        vec![region(0..0x400, "X86"), region(0x400..0x600, "X86"), region(0x500..0x800, "ARM")]
    );
}

#[test]
fn ranges_are_taken_in_the_order_of_their_beginnings() {
    let res = result_with(vec![
        (0x200..0x400, Some("ARM")),
        (0x000..0x200, Some("X86")),
        (0x300..0x500, Some("ARM")),
        (0x100..0x300, Some("X86")),
    ]);
    let out = CliJsonOutput::from("a/b.bin", &res);
    assert_eq!(out.file, "a/b.bin");
    assert_eq!(out.range_results, vec![region(0..0x300, "X86"), region(0x200..0x500, "ARM")]);
}

#[test]
fn ranges_with_one_beginning_keep_their_order() {
    let res = result_with(vec![
        (0x10..0x20, Some("B")),
        (0x00..0x30, Some("A")),
        (0x10..0x40, Some("A")),
        (0x00..0x08, Some("B")),
    ]);
    let out = CliJsonOutput::from("", &res);
    assert_eq!(
        out.range_results,
        vec![region(0..0x30, "A"), region(0..0x20, "B"), region(0x10..0x40, "A")]
    );
}

#[test]
fn unlabelled_ranges_are_left_out() {
    let out = CliJsonOutput::from("x", &result_with(vec![]));
    assert!(out.range_results.is_empty());
    let out = CliJsonOutput::from("x", &result_with(vec![(0..2, None)]));
    assert!(out.range_results.is_empty());
    let out = CliJsonOutput::from("x", &result_with(vec![(0..2, None), (1..3, None)]));
    assert!(out.range_results.is_empty());
    let out = CliJsonOutput::from("x", &result_with(vec![(0..2, None), (1..3, Some("A")), (2..3, None)]));
    assert_eq!(out.range_results, vec![region(1..3, "A")]);
}

#[test]
fn one_range_is_its_own_region() {
    let out = CliJsonOutput::from("x", &result_with(vec![(7..7, Some("A"))]));
    assert_eq!(out.range_results, vec![(7..7, 0, "A".to_string())]);
    let out = CliJsonOutput::from("x", &result_with(vec![(0..usize::MAX, Some("_words"))]));
    assert_eq!(out.range_results, vec![(0..usize::MAX, usize::MAX, "_words".to_string())]);
}

#[test]
fn colours_are_a_hash_of_the_number() {
    assert_eq!(coderec::arch_idx_to_color(0), (0, 0, 0));
    assert_eq!(coderec::arch_idx_to_color(1), (57, 248, 13));
    assert_eq!(coderec::arch_idx_to_color(2), (114, 240, 26));
    assert_eq!(coderec::arch_idx_to_color(20), (116, 96, 4));
    for idx in [3usize, 77, 255, 256, 1000, usize::MAX] {
        assert_eq!(
            coderec::arch_idx_to_color(idx),
            (
                idx.wrapping_mul(1337) as u8,
                idx.wrapping_mul(9976) as u8,
                idx.wrapping_mul(13) as u8
            )
        );
    }
}
