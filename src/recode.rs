//! Booth recoding of an overlapping window of multiplier bits.
use vstd::arithmetic::power2::{lemma2_to64, pow2};
use vstd::prelude::*;

verus! {

/// The coefficient that a window of `group + 1` bits stands for: its upper
/// `group` bits plus its lowest bit (the overlap with the previous window),
/// with the top bit weighing `-2^group`.
pub open spec fn booth_digit(window: int, group: nat) -> int {
    (window + 1) / 2 - (if window >= pow2(group) {
        pow2(group) as int
    } else {
        0
    })
}

/// Radix-4 recoding of a three-bit window into a coefficient in `-2..=2`.
pub fn radix4_coefficient(window: i32) -> (c: i32)
    requires
        0 <= window < 8,
    ensures
        c == booth_digit(window as int, 2),
        -2 <= c <= 2,
{
    proof {
        lemma2_to64();
    }
    match window {
        0b000 => 0,
        0b001 => 1,
        0b010 => 1,
        0b011 => 2,
        0b100 => -2,
        0b101 => -1,
        0b110 => -1,
        _ => 0,
    }
}

/// Radix-8 recoding of a four-bit window into a coefficient in `-4..=4`.
pub fn radix8_coefficient(window: i32) -> (c: i32)
    requires
        0 <= window < 16,
    ensures
        c == booth_digit(window as int, 3),
        -4 <= c <= 4,
{
    proof {
        lemma2_to64();
    }
    match window {
        0b0000 => 0,
        0b0001 => 1,
        0b0010 => 1,
        0b0011 => 2,
        0b0100 => 2,
        0b0101 => 3,
        0b0110 => 3,
        0b0111 => 4,
        0b1000 => -4,
        0b1001 => -3,
        0b1010 => -3,
        0b1011 => -2,
        0b1100 => -2,
        0b1101 => -1,
        0b1110 => -1,
        _ => 0,
    }
}

} // verus!
