//! A double-width shift register: a low half of `low_bits` bits and the
//! partial-product accumulator above it, held in one `i32`.
use crate::twos::{lemma_mask_is_mod, lemma_shl_is_mul, lemma_shr_is_floor_div};
use crate::util::register_mask;
use vstd::arithmetic::div_mod::lemma_mod_bound;
use vstd::arithmetic::power2::{lemma2_to64, lemma_pow2_pos, lemma_pow2_strictly_increases, pow2};
use vstd::prelude::*;

verus! {

pub struct DoubleRegister {
    value: i32,
    low_bits: u32,
}

impl DoubleRegister {
    /// The register's whole contents, as a signed number.
    pub closed spec fn spec_value(&self) -> int {
        self.value as int
    }

    /// The width of the low half.
    pub closed spec fn spec_low_bits(&self) -> nat {
        self.low_bits as nat
    }

    /// A zeroed register whose low half has `low_bits` bits.
    pub fn new(low_bits: u32) -> (r: Self)
        ensures
            r.spec_value() == 0,
            r.spec_low_bits() == low_bits,
    {
        DoubleRegister { value: 0, low_bits }
    }

    pub fn value(&self) -> (r: i32)
        ensures
            r == self.spec_value(),
    {
        self.value
    }

    /// The high half: the contents shifted down past the low half, keeping the sign.
    pub fn high(&self) -> (r: i32)
        requires
            self.spec_low_bits() < 32,
        ensures
            r == self.spec_value() / (pow2(self.spec_low_bits()) as int),
    {
        proof {
            lemma_shr_is_floor_div(self.value, self.low_bits);
        }
        self.value >> self.low_bits
    }

    /// Replaces the high half by `value`, keeping the low half.
    pub fn set_high(&mut self, value: i32)
        requires
            old(self).spec_low_bits() < 31,
            i32::MIN <= value * pow2(old(self).spec_low_bits()) <= i32::MAX,
        ensures
            final(self).spec_low_bits() == old(self).spec_low_bits(),
            final(self).spec_value() == old(self).spec_value() % (pow2(
                old(self).spec_low_bits(),
            ) as int) + value * pow2(old(self).spec_low_bits()),
    {
        let mask = register_mask(self.low_bits);
        let low = self.value & mask;
        proof {
            lemma2_to64();
            lemma_pow2_pos(self.low_bits as nat);
            lemma_pow2_strictly_increases(self.low_bits as nat, 31);
            lemma_mask_is_mod(self.value, mask, self.low_bits);
            lemma_mod_bound(self.value as int, pow2(self.low_bits as nat) as int);
            lemma_shl_is_mul(value, self.low_bits);
            lemma_shl_is_mul(1, self.low_bits);
            let k = self.low_bits;
            let h = value << k;
            let v = self.value;
            assert(low & h == 0 && low | h == low + h) by (bit_vector)
                requires
                    low == v & mask,
                    mask == (1i32 << k) - 1,
                    h == value << k,
                    k < 31,
            ;
        }
        self.value = low | (value << self.low_bits);
    }

    /// Shifts the whole register right by `k` bits, keeping the sign.
    pub fn shift_right(&mut self, k: u32)
        requires
            k < 32,
        ensures
            final(self).spec_low_bits() == old(self).spec_low_bits(),
            final(self).spec_value() == old(self).spec_value() / (pow2(k as nat) as int),
    {
        proof {
            lemma_shr_is_floor_div(self.value, k);
        }
        self.value = self.value >> k;
    }
}

} // verus!
