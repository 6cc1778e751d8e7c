//! Estimated gate delays of the multiplier hardware, in abstract gate-delay units.
use vstd::math::max;
use vstd::prelude::*;

verus! {

/// Shift and latch overhead paid between two consecutive iterations, the
/// same for both radices and all widths.
pub const LATCH_DELAY: u32 = 3;

/// The operand widths for which the adder delay is calibrated.
pub open spec fn is_supported_width(n: u32) -> bool {
    n == 4 || n == 6 || n == 8 || n == 10 || n == 12
}

/// Critical path of a carry-select adder of a calibrated width.
pub open spec fn adder_delay(n: u32) -> nat {
    if n == 4 {
        8
    } else if n == 6 {
        10
    } else if n == 8 || n == 10 {
        12
    } else {
        14
    }
}

/// Critical path of a carry-select adder of `bits` bits, or `None` where the
/// width is not calibrated.
pub fn carry_select_delay(bits: u32) -> (r: Option<u32>)
    ensures
        r == (if is_supported_width(bits) {
            Some(adder_delay(bits) as u32)
        } else {
            None::<u32>
        }),
{
    match bits {
        4 => Some(8),  // 2-2
        6 => Some(10),  // 3-3
        8 => Some(12),  // 4-4
        10 => Some(12),  // 4-3-3
        12 => Some(14),  // 4-4-4
        _ => None,
    }
}

/// Delay of a multiplexer choosing among `2^selector_bits` inputs.
pub open spec fn mux_cost(selector_bits: nat) -> nat {
    selector_bits + 1
}

/// Delay of a multiplexer choosing among `2^selector_bits` inputs.
pub fn mux_delay(selector_bits: u32) -> (r: u32)
    requires
        selector_bits < u32::MAX,
    ensures
        r == mux_cost(selector_bits as nat),
{
    selector_bits + 1
}

/// Delay of complementing an `n`-bit multiplicand.
pub fn complement_delay(n: u32) -> (r: u32)
    ensures
        r == n,
{
    n
}

/// Delay of two paths that run side by side: the slower of the two.
pub fn parallel_delay(x: u32, y: u32) -> (r: u32)
    ensures
        r == max(x as int, y as int),
{
    if x >= y {
        x
    } else {
        y
    }
}

} // verus!
