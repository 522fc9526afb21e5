//! The pseudo-random source of a lattice.
//!
//! The generator itself is `rand`'s `SmallRng`; nothing is proved about the
//! numbers it produces. What the simulation derives from a raw draw (a
//! lattice coordinate, the numerator of a unit-interval fraction) is computed
//! and verified here.

use rand::rngs::SmallRng;
use rand::RngCore;
use vstd::prelude::*;

verus! {

/// `rand::rngs::SmallRng`, carried through verified code as an opaque value.
#[verifier::external_type_specification]
#[verifier::external_body]
pub struct ExSmallRng(SmallRng);

/// The denominator of probabilities and of unit-interval draws: `2^53`, the
/// number of fractions that a uniform draw from `[0, 1)` can take.
pub const UNIT: u64 = 0x20_0000_0000_0000;

/// Calls `RngCore::next_u32` on the generator, which computes the number
/// from its state and cannot fail. The value depends on that hidden state,
/// so nothing is claimed about it.
#[verifier::external_body]
pub(crate) fn draw_u32(rng: &mut SmallRng) -> u32 {
    rng.next_u32()
}

/// Calls `RngCore::next_u64` on the generator, which computes the number
/// from its state and cannot fail. The value depends on that hidden state,
/// so nothing is claimed about it.
#[verifier::external_body]
pub(crate) fn draw_u64(rng: &mut SmallRng) -> u64 {
    rng.next_u64()
}

/// The coordinate that a raw 32-bit draw selects on a lattice of side `n`:
/// the draw divided by the width of the `n` equal bins that cover the 32-bit
/// range.
pub open spec fn site_of(n: int, draw: int) -> int {
    draw / (0xffff_ffffint / n + 1)
}

/// Maps a raw 32-bit draw to a coordinate in `[0, n)`.
pub fn site_from_draw(n: usize, draw: u32) -> (site: usize)
    requires
        1 <= n,
    ensures
        site == site_of(n as int, draw as int),
        site < n,
{
    let width: u64 = (u32::MAX as u64) / (n as u64) + 1;
    let site: u64 = (draw as u64) / width;
    proof {
        lemma_site_in_range(n as int, draw as int);
    }
    site as usize
}

/// Maps a raw 64-bit draw to the numerator of a fraction in `[0, 1)` over
/// `UNIT`: its 53 most significant bits.
pub fn unit_from_draw(draw: u64) -> (numerator: u64)
    ensures
        numerator == draw / 2048,
        numerator < UNIT,
{
    assert(draw >> 11 == draw / 2048 && draw >> 11 < 0x20_0000_0000_0000u64) by (bit_vector);
    draw >> 11
}

/// Every 32-bit draw selects a coordinate below `n`.
pub proof fn lemma_site_in_range(n: int, draw: int)
    requires
        1 <= n,
        0 <= draw <= 0xffff_ffff,
    ensures
        0 <= site_of(n, draw) < n,
{
    let width: int = 0xffff_ffffint / n + 1;
    assert(width * n > 0xffff_ffff && width >= 1) by (nonlinear_arith)
        requires
            width == 0xffff_ffffint / n + 1,
            1 <= n,
    ;
    assert(0 <= draw / width < n) by (nonlinear_arith)
        requires
            width * n > 0xffff_ffff,
            width >= 1,
            0 <= draw <= 0xffff_ffff,
            n >= 1,
    ;
}

} // verus!
