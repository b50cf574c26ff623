//! The colour in which an architecture is drawn.

use vstd::arithmetic::div_mod::lemma_mul_mod_noop;
use vstd::prelude::*;

verus! {

/// One channel of the colour of the architecture with number `arch_idx`:
/// the lowest byte of the number times `factor`.
pub open spec fn spec_channel(arch_idx: usize, factor: int) -> int {
    (arch_idx * factor) % 256
}

fn channel(arch_idx: usize, factor: usize) -> (c: u8)
    requires
        factor < 0x1_0000,
    ensures
        c == spec_channel(arch_idx, factor as int),
{
    proof {
        lemma_mul_mod_noop(arch_idx as int, factor as int, 256);
    }
    let a: usize = arch_idx % 256;
    let b: usize = factor % 256;
    assert(a * b <= 0xffff) by (nonlinear_arith)
        requires
            0 <= a < 256,
            0 <= b < 256,
    ;
    let low: usize = a * b;
    (low % 256) as u8
}

/// The colour of the architecture with number `arch_idx`, as red, green
/// and blue: a hash of the number, so that architectures next to each
/// other are told apart.
pub fn arch_idx_to_color(arch_idx: usize) -> (rgb: (u8, u8, u8))
    ensures
        rgb.0 == spec_channel(arch_idx, 1337),
        rgb.1 == spec_channel(arch_idx, 9976),
        rgb.2 == spec_channel(arch_idx, 13),
{
    (channel(arch_idx, 1337), channel(arch_idx, 9976), channel(arch_idx, 13))
}

} // verus!
