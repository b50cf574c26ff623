//! The decision heuristic: which architecture, if any, a range is labelled
//! with, given the closest architecture by 2-grams and by 3-grams.
//!
//! Divergences and means are fixed-point numbers in millionths; a variance
//! is in millionths squared. A comparison against a number of standard
//! deviations is made on the squares, so that no root has to be taken.

use crate::names::{starts_with, str_eq};
use vstd::prelude::*;

verus! {

/// The fixed-point representation of 1.0.
pub const DIV_ONE: i32 = 1_000_000;

/// Limits on the absolute divergence of the closest architecture.
pub const MAX_ABS_DIV_BG: i32 = 5_000_000;

pub const MAX_ABS_DIV_TG: i32 = 6_000_000;

pub const MAX_ABS_DIV_STRICT_BG: i32 = 4_000_000;

pub const MAX_ABS_DIV_STRICT_TG: i32 = 5_000_000;

/// Standard deviations, in tenths, below the mean at which one order alone
/// decides.
pub const INSTANT_STD_DEV_BG: u8 = 20;

pub const INSTANT_STD_DEV_TG: u8 = 20;

pub const INSTANT_STD_DEV_STRICT_BG: u8 = 25;

pub const INSTANT_STD_DEV_STRICT_TG: u8 = 25;

/// Standard deviations, in tenths, below the mean at which two agreeing
/// orders decide.
pub const COMM_STD_DEV_BG: u8 = 10;

pub const COMM_STD_DEV_TG: u8 = 10;

pub const COMM_STD_DEV_STRICT_BG: u8 = 15;

pub const COMM_STD_DEV_STRICT_TG: u8 = 15;

/// Standard deviations, in tenths, below the mean at which 3-grams alone
/// decide for natural-language text.
pub const WORDS_STD_DEV_TG: u8 = 10;

/// The closest architecture of one range for one n-gram order, with the
/// mean and the variance of the divergences of all architectures in that
/// range.
#[derive(Debug)]
pub struct RangeResult {
    pub arch: String,
    pub div: i32,
    pub range_mean: i32,
    pub range_var: u64,
}

impl From<(String, i32, i32, u64)> for RangeResult {
    fn from(i: (String, i32, i32, u64)) -> (r: Self) {
        Self { arch: i.0, div: i.1, range_mean: i.2, range_var: i.3 }
    }
}

impl vstd::std_specs::convert::FromSpecImpl<(String, i32, i32, u64)> for RangeResult {
    open spec fn obeys_from_spec() -> bool {
        true
    }

    open spec fn from_spec(i: (String, i32, i32, u64)) -> Self {
        Self { arch: i.0, div: i.1, range_mean: i.2, range_var: i.3 }
    }
}

/// The three thresholds of one n-gram order.
#[derive(Debug)]
pub struct Thresholds {
    /// Largest divergence, in millionths, at which a label is still given.
    pub max_abs_div: i32,
    /// Tenths of a standard deviation for instant detection.
    pub instant_std_dev: u8,
    /// Tenths of a standard deviation for detection by concurrence.
    pub comm_std_dev: u8,
}

/// The architectures whose byte statistics collide with common patterns
/// that are no code, and which are therefore held to tighter thresholds.
pub open spec fn spec_is_strict(arch: Seq<char>) -> bool {
    ||| arch == "OCaml"@
    ||| arch == "PIC10"@
    ||| arch == "PIC16"@
    ||| arch == "PIC18"@
    ||| arch == "PIC24"@
    ||| arch == "6502"@
    ||| arch == "#6502#cc65"@
    ||| arch == "TI_MSP430"@
    ||| arch == "IA-64"@
    ||| arch == "Cell-SPU"@
    ||| arch == "AVR"@
    ||| arch == "FR-V"@
    ||| arch == "M68k"@
    ||| arch == "RL78"@
    ||| arch == "HP-PA"@
    ||| arch == "FR30"@
    ||| arch == "ARC32eb"@
    ||| arch == "Epiphany"@
    ||| arch == "MIPS16"@
    ||| arch == "Stormy16"@
    ||| arch == "Visium"@
    ||| arch == "M32C"@
    ||| arch == "CLIPPER"@
    ||| arch == "TMS320C2x"@
    ||| arch == "TMS320C6x"@
    ||| arch == "i860"@
    ||| arch == "8051"@
    ||| arch == "Cray"@
    ||| arch == "MCore"@
    ||| arch == "V850"@
    ||| arch == "NDS32"@
    ||| arch == "CompactRISC"@
    ||| arch == "WE32000"@
}

/// Whether `arch` is on the strict list. The match is exact.
pub fn is_strict(arch: &str) -> (r: bool)
    ensures
        r == spec_is_strict(arch@),
{
    str_eq(arch, "OCaml") || str_eq(arch, "PIC10") || str_eq(arch, "PIC16") || str_eq(
        arch,
        "PIC18",
    ) || str_eq(arch, "PIC24") || str_eq(arch, "6502") || str_eq(arch, "#6502#cc65") || str_eq(
        arch,
        "TI_MSP430",
    ) || str_eq(arch, "IA-64") || str_eq(arch, "Cell-SPU") || str_eq(arch, "AVR") || str_eq(
        arch,
        "FR-V",
    ) || str_eq(arch, "M68k") || str_eq(arch, "RL78") || str_eq(arch, "HP-PA") || str_eq(
        arch,
        "FR30",
    ) || str_eq(arch, "ARC32eb") || str_eq(arch, "Epiphany") || str_eq(arch, "MIPS16") || str_eq(
        arch,
        "Stormy16",
    ) || str_eq(arch, "Visium") || str_eq(arch, "M32C") || str_eq(arch, "CLIPPER") || str_eq(
        arch,
        "TMS320C2x",
    ) || str_eq(arch, "TMS320C6x") || str_eq(arch, "i860") || str_eq(arch, "8051") || str_eq(
        arch,
        "Cray",
    ) || str_eq(arch, "MCore") || str_eq(arch, "V850") || str_eq(arch, "NDS32") || str_eq(
        arch,
        "CompactRISC",
    ) || str_eq(arch, "WE32000")
}

/// Whether `arch` names natural-language text rather than code.
pub open spec fn spec_is_words(arch: Seq<char>) -> bool {
    "_words"@.is_prefix_of(arch)
}

/// Whether `arch` names natural-language text rather than code.
pub fn is_words(arch: &str) -> (r: bool)
    ensures
        r == spec_is_words(arch@),
{
    starts_with(arch, "_words")
}

/// The 2-gram thresholds for a closest architecture that is strict or not.
pub open spec fn spec_thresholds_bg(strict: bool) -> Thresholds {
    if strict {
        Thresholds {
            max_abs_div: MAX_ABS_DIV_STRICT_BG,
            instant_std_dev: INSTANT_STD_DEV_STRICT_BG,
            comm_std_dev: COMM_STD_DEV_STRICT_BG,
        }
    } else {
        Thresholds {
            max_abs_div: MAX_ABS_DIV_BG,
            instant_std_dev: INSTANT_STD_DEV_BG,
            comm_std_dev: COMM_STD_DEV_BG,
        }
    }
}

/// The 3-gram thresholds for a closest architecture that is strict or not.
pub open spec fn spec_thresholds_tg(strict: bool) -> Thresholds {
    if strict {
        Thresholds {
            max_abs_div: MAX_ABS_DIV_STRICT_TG,
            instant_std_dev: INSTANT_STD_DEV_STRICT_TG,
            comm_std_dev: COMM_STD_DEV_STRICT_TG,
        }
    } else {
        Thresholds {
            max_abs_div: MAX_ABS_DIV_TG,
            instant_std_dev: INSTANT_STD_DEV_TG,
            comm_std_dev: COMM_STD_DEV_TG,
        }
    }
}

/// The 2-gram thresholds for the closest architecture `arch`.
pub fn thresholds_bg(arch: &str) -> (t: Thresholds)
    ensures
        t == spec_thresholds_bg(spec_is_strict(arch@)),
{
    if is_strict(arch) {
        Thresholds {
            max_abs_div: MAX_ABS_DIV_STRICT_BG,
            instant_std_dev: INSTANT_STD_DEV_STRICT_BG,
            comm_std_dev: COMM_STD_DEV_STRICT_BG,
        }
    } else {
        Thresholds {
            max_abs_div: MAX_ABS_DIV_BG,
            instant_std_dev: INSTANT_STD_DEV_BG,
            comm_std_dev: COMM_STD_DEV_BG,
        }
    }
}

/// The 3-gram thresholds for the closest architecture `arch`.
pub fn thresholds_tg(arch: &str) -> (t: Thresholds)
    ensures
        t == spec_thresholds_tg(spec_is_strict(arch@)),
{
    if is_strict(arch) {
        Thresholds {
            max_abs_div: MAX_ABS_DIV_STRICT_TG,
            instant_std_dev: INSTANT_STD_DEV_STRICT_TG,
            comm_std_dev: COMM_STD_DEV_STRICT_TG,
        }
    } else {
        Thresholds {
            max_abs_div: MAX_ABS_DIV_TG,
            instant_std_dev: INSTANT_STD_DEV_TG,
            comm_std_dev: COMM_STD_DEV_TG,
        }
    }
}

/// `div < mean - (tenths / 10) * sqrt(var)`, stated without the root: the
/// distance `mean - div` is positive and its square exceeds the square of
/// `tenths / 10` standard deviations.
pub open spec fn spec_stands_out(div: int, mean: int, var: int, tenths: int) -> bool {
    mean - div > 0 && tenths * tenths * var < 100 * ((mean - div) * (mean - div))
}

/// Whether the divergence of `res` lies more than `tenths / 10` standard
/// deviations below the mean of its range.
pub fn stands_out(res: &RangeResult, tenths: u8) -> (r: bool)
    ensures
        r == spec_stands_out(
            res.div as int,
            res.range_mean as int,
            res.range_var as int,
            tenths as int,
        ),
{
    let dist: i64 = res.range_mean as i64 - res.div as i64;
    if dist <= 0 {
        return false;
    }
    let d: u128 = dist as u128;
    let t: u128 = tenths as u128;
    assert(d * d < 0x1_0000_0000_0000_0000) by (nonlinear_arith)
        requires
            0 < d < 0x1_0000_0000,
    ;
    assert(t * t <= 0x1_0000) by (nonlinear_arith)
        requires
            0 <= t < 0x100,
    ;
    let v: u128 = res.range_var as u128;
    assert(t * t * v < 0x1_0000_0000_0000_0000_0000) by (nonlinear_arith)
        requires
            0 <= t * t <= 0x1_0000,
            0 <= v < 0x1_0000_0000_0000_0000,
    ;
    t * t * v < 100 * (d * d)
}

/// The label of an optional name, as a sequence of characters.
pub open spec fn label_view(label: Option<String>) -> Option<Seq<char>> {
    match label {
        Some(arch) => Some(arch@),
        None => None,
    }
}

/// The rules by which a range is labelled, the first that applies deciding:
/// no label where both orders are too far from their closest architecture;
/// the closest by 3-grams, then by 2-grams, where it stands out alone; the
/// closest by 3-grams where both orders agree and both stand out less
/// strictly, or where it is text and stands out by one deviation; else no
/// label.
pub open spec fn spec_final_range_result(bg: RangeResult, tg: RangeResult) -> Option<Seq<char>> {
    let t_bg = spec_thresholds_bg(spec_is_strict(bg.arch@));
    let t_tg = spec_thresholds_tg(spec_is_strict(tg.arch@));
    if bg.div > t_bg.max_abs_div && tg.div > t_tg.max_abs_div {
        None
    } else if spec_stands_out(
        tg.div as int,
        tg.range_mean as int,
        tg.range_var as int,
        t_tg.instant_std_dev as int,
    ) {
        Some(tg.arch@)
    } else if spec_stands_out(
        bg.div as int,
        bg.range_mean as int,
        bg.range_var as int,
        t_bg.instant_std_dev as int,
    ) {
        Some(bg.arch@)
    } else if spec_stands_out(
        bg.div as int,
        bg.range_mean as int,
        bg.range_var as int,
        t_bg.comm_std_dev as int,
    ) && spec_stands_out(
        tg.div as int,
        tg.range_mean as int,
        tg.range_var as int,
        t_tg.comm_std_dev as int,
    ) && tg.arch@ == bg.arch@ {
        Some(tg.arch@)
    } else if spec_stands_out(
        tg.div as int,
        tg.range_mean as int,
        tg.range_var as int,
        WORDS_STD_DEV_TG as int,
    ) && spec_is_words(tg.arch@) {
        Some(tg.arch@)
    } else {
        None
    }
}

/// Main heuristic that decides which architecture is assigned to a range.
pub fn final_range_result(res_bg: &RangeResult, res_tg: &RangeResult) -> (label: Option<String>)
    ensures
        label_view(label) == spec_final_range_result(*res_bg, *res_tg),
{
    let t_bg = thresholds_bg(res_bg.arch.as_str());
    let t_tg = thresholds_tg(res_tg.arch.as_str());
    if res_bg.div > t_bg.max_abs_div && res_tg.div > t_tg.max_abs_div {
        None
    } else if stands_out(res_tg, t_tg.instant_std_dev) {
        Some(res_tg.arch.clone())
    } else if stands_out(res_bg, t_bg.instant_std_dev) {
        Some(res_bg.arch.clone())
    } else if stands_out(res_bg, t_bg.comm_std_dev) && stands_out(res_tg, t_tg.comm_std_dev)
        && str_eq(res_tg.arch.as_str(), res_bg.arch.as_str()) {
        Some(res_tg.arch.clone())
    } else if stands_out(res_tg, WORDS_STD_DEV_TG) && is_words(res_tg.arch.as_str()) {
        Some(res_tg.arch.clone())
    } else {
        None
    }
}

/// A range result that differs from `res` in its divergence alone.
pub open spec fn with_div(res: RangeResult, div: i32) -> RangeResult {
    RangeResult { arch: res.arch, div: div, range_mean: res.range_mean, range_var: res.range_var }
}

/// A divergence that stands out still does when it is lowered.
pub proof fn lemma_stands_out_monotone(div: int, lower: int, mean: int, var: int, tenths: int)
    requires
        lower <= div,
        spec_stands_out(div, mean, var, tenths),
    ensures
        spec_stands_out(lower, mean, var, tenths),
{
    assert((mean - div) * (mean - div) <= (mean - lower) * (mean - lower)) by (nonlinear_arith)
        requires
            0 < mean - div <= mean - lower,
    ;
}

/// With all else fixed, a lower 3-gram divergence never turns a label into
/// none.
pub proof fn lemma_lower_trigram_divergence_keeps_label(
    bg: RangeResult,
    tg: RangeResult,
    lower: i32,
)
    requires
        lower <= tg.div,
        spec_final_range_result(bg, tg) is Some,
    ensures
        spec_final_range_result(bg, with_div(tg, lower)) is Some,
{
    let t_bg = spec_thresholds_bg(spec_is_strict(bg.arch@));
    let t_tg = spec_thresholds_tg(spec_is_strict(tg.arch@));
    let low = with_div(tg, lower);
    if spec_stands_out(
        tg.div as int,
        tg.range_mean as int,
        tg.range_var as int,
        t_tg.instant_std_dev as int,
    ) {
        lemma_stands_out_monotone(
            tg.div as int,
            lower as int,
            tg.range_mean as int,
            tg.range_var as int,
            t_tg.instant_std_dev as int,
        );
    }
    if spec_stands_out(
        tg.div as int,
        tg.range_mean as int,
        tg.range_var as int,
        t_tg.comm_std_dev as int,
    ) {
        lemma_stands_out_monotone(
            tg.div as int,
            lower as int,
            tg.range_mean as int,
            tg.range_var as int,
            t_tg.comm_std_dev as int,
        );
    }
    if spec_stands_out(
        tg.div as int,
        tg.range_mean as int,
        tg.range_var as int,
        WORDS_STD_DEV_TG as int,
    ) {
        lemma_stands_out_monotone(
            tg.div as int,
            lower as int,
            tg.range_mean as int,
            tg.range_var as int,
            WORDS_STD_DEV_TG as int,
        );
    }
}

} // verus!
