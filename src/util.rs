//! Helpers on fixed-width two's-complement values.
use crate::twos::{lemma_mask_is_mod, lemma_or_complement, lemma_shl_is_mul, lemma_sign_bit};
use vstd::arithmetic::div_mod::{
    lemma_fundamental_div_mod, lemma_fundamental_div_mod_converse, lemma_mod_bound,
};
use vstd::arithmetic::power2::{lemma2_to64, lemma_pow2_pos, lemma_pow2_strictly_increases, lemma_pow2_unfold, pow2};
use crate::twos::lemma_shr_is_floor_div;
use vstd::prelude::*;
use vstd::string::StringExecFns;

verus! {

/// The low `n` bits of `x`, read as an `n`-bit two's-complement number.
pub open spec fn low_bits_signed(x: int, n: nat) -> int {
    let low = x % (pow2(n) as int);
    if low < pow2((n - 1) as nat) {
        low
    } else {
        low - pow2(n)
    }
}

/// `a / b` rounded up.
pub open spec fn ceil_div(a: int, b: int) -> int {
    (a + b - 1) / b
}

/// The value of `n` signed bits lies in `-2^(n - 1) .. 2^(n - 1)`.
pub proof fn lemma_low_bits_signed_range(x: int, n: nat)
    requires
        n >= 1,
    ensures
        -pow2((n - 1) as nat) <= low_bits_signed(x, n) < pow2((n - 1) as nat),
{
    lemma_pow2_unfold(n);
    lemma_pow2_pos(n);
    lemma_mod_bound(x, pow2(n) as int);
}

/// A mask with the low `bits` bits set.
pub fn register_mask(bits: u32) -> (r: i32)
    requires
        bits <= 31,
    ensures
        r as int == pow2(bits as nat) - 1,
{
    proof {
        lemma2_to64();
    }
    if bits == 31 {
        i32::MAX
    } else {
        proof {
            lemma_pow2_strictly_increases(bits as nat, 31);
            lemma_shl_is_mul(1, bits);
        }
        (1i32 << bits) - 1
    }
}

/// Replicates bit `n - 1` of `x` into all higher bits, so that the result is
/// the low `n` bits of `x` read as a signed number.
pub fn sign_extend(x: i32, n: u32) -> (r: i32)
    requires
        1 <= n <= 32,
    ensures
        r as int == low_bits_signed(x as int, n as nat),
{
    proof {
        lemma2_to64();
    }
    if n == 32 {
        proof {
            if x < 0 {
                lemma_fundamental_div_mod_converse(x as int, pow2(32) as int, -1, x + pow2(32));
            } else {
                lemma_fundamental_div_mod_converse(x as int, pow2(32) as int, 0, x as int);
            }
        }
        return x;
    }
    let mask = register_mask(n);
    let sign_mask = !mask;
    proof {
        assert(!sign_mask == mask) by (bit_vector)
            requires
                sign_mask == !mask,
        ;
        lemma_mask_is_mod(x, mask, n);
        lemma_pow2_unfold(n as nat);
        lemma_sign_bit(x, mask, (n - 1) as u32);
        lemma_or_complement(x, mask);
    }
    if x & (1i32 << (n - 1)) == 0 {
        x & !sign_mask
    } else {
        x | sign_mask
    }
}

/// `a / b` rounded up.
pub fn ceiling_div(a: u32, b: u32) -> (r: u32)
    requires
        b > 0,
    ensures
        r == ceil_div(a as int, b as int),
{
    if a == 0 {
        proof {
            lemma_fundamental_div_mod_converse(b - 1, b as int, 0, b - 1);
        }
        0
    } else {
        let r = 1 + (a - 1) / b;
        proof {
            let q = (a - 1) / (b as int);
            lemma_fundamental_div_mod((a - 1) as int, b as int);
            lemma_mod_bound((a - 1) as int, b as int);
            assert(a + b - 1 == (q + 1) * b + (a - 1) % (b as int)) by (nonlinear_arith)
                requires
                    a - 1 == b * q + (a - 1) % (b as int),
            ;
            lemma_fundamental_div_mod_converse(a + b - 1, b as int, q + 1, (a - 1) % (b as int));
        }
        r
    }
}

/// Bit `k` of `x` in two's complement.
pub open spec fn bit_of(x: int, k: nat) -> int {
    (x / (pow2(k) as int)) % 2
}

/// The low `n` bits of `x` as binary digits, most significant first.
pub open spec fn binary_text(x: int, n: nat) -> Seq<char> {
    Seq::new(
        n,
        |i: int|
            if bit_of(x, (n - 1 - i) as nat) == 1 {
                '1'
            } else {
                '0'
            },
    )
}

/// Hexadecimal digit `k` of `x` in two's complement, counting from the least significant.
pub open spec fn nibble_of(x: int, k: nat) -> int {
    (x / (pow2(4 * k) as int)) % 16
}

/// The characters of the sixteen hexadecimal digits.
pub open spec fn hex_digits() -> Seq<char> {
    seq!['0', '1', '2', '3', '4', '5', '6', '7', '8', '9', 'a', 'b', 'c', 'd', 'e', 'f']
}

/// The low `n` hexadecimal digits of `x`, most significant first.
pub open spec fn hex_text(x: int, n: nat) -> Seq<char> {
    Seq::new(n, |i: int| hex_digits()[nibble_of(x, (n - 1 - i) as nat)])
}

/// A value shown as its lower `.1` bits in binary.
pub struct SizedBinary(pub i32, pub u32);

impl SizedBinary {
    pub fn to_string(&self) -> (s: String)
        requires
            self.1 <= 32,
        ensures
            s@ == binary_text(self.0 as int, self.1 as nat),
    {
        let x = self.0;
        let n = self.1;
        let mut s = String::new();
        let mut k: u32 = n;
        while k > 0
            invariant
                k <= n <= 32,
                x == self.0,
                n == self.1,
                s@ == binary_text(x as int, n as nat).subrange(0, (n - k) as int),
            decreases k,
        {
            let shifted = x >> (k - 1);
            let bit = shifted & 1;
            proof {
                lemma_shr_is_floor_div(x, (k - 1) as u32);
                assert(shifted & 1 == shifted % 2) by (bit_vector);
                reveal_strlit("0");
                reveal_strlit("1");
            }
            if bit == 1 {
                s.append("1");
            } else {
                s.append("0");
            }
            k = k - 1;
            assert(s@ =~= binary_text(x as int, n as nat).subrange(0, (n - k) as int));
        }
        s
    }
}

/// A value shown as its lower `.1` hexadecimal digits.
pub struct SizedHex(pub i32, pub u32);

impl SizedHex {
    pub fn to_string(&self) -> (s: String)
        requires
            self.1 <= 8,
        ensures
            s@ == hex_text(self.0 as int, self.1 as nat),
    {
        let x = self.0;
        let n = self.1;
        let mut s = String::new();
        let mut k: u32 = n;
        while k > 0
            invariant
                k <= n <= 8,
                x == self.0,
                n == self.1,
                s@ == hex_text(x as int, n as nat).subrange(0, (n - k) as int),
            decreases k,
        {
            let shifted = x >> (4 * (k - 1));
            let digit = shifted & 0xf;
            proof {
                lemma_shr_is_floor_div(x, (4 * (k - 1)) as u32);
                assert(shifted & 0xf == shifted % 16) by (bit_vector);
                assert(4 * (k - 1) == 4 * ((n - 1 - (n - k)) as nat));
                reveal_strlit("0");
                reveal_strlit("1");
                reveal_strlit("2");
                reveal_strlit("3");
                reveal_strlit("4");
                reveal_strlit("5");
                reveal_strlit("6");
                reveal_strlit("7");
                reveal_strlit("8");
                reveal_strlit("9");
                reveal_strlit("a");
                reveal_strlit("b");
                reveal_strlit("c");
                reveal_strlit("d");
                reveal_strlit("e");
                reveal_strlit("f");
            }
            s.append(
                match digit {
                    0 => "0",
                    1 => "1",
                    2 => "2",
                    3 => "3",
                    4 => "4",
                    5 => "5",
                    6 => "6",
                    7 => "7",
                    8 => "8",
                    9 => "9",
                    10 => "a",
                    11 => "b",
                    12 => "c",
                    13 => "d",
                    14 => "e",
                    _ => "f",
                },
            );
            k = k - 1;
            assert(s@ =~= hex_text(x as int, n as nat).subrange(0, (n - k) as int));
        }
        s
    }
}

} // verus!
