//! Facts relating the bit operations of `i32` to integer arithmetic.
use vstd::arithmetic::div_mod::{
    lemma_div_is_ordered, lemma_div_multiples_vanish, lemma_fundamental_div_mod,
    lemma_fundamental_div_mod_converse, lemma_mod_bound,
};
use vstd::arithmetic::power2::{
    lemma2_to64, lemma_pow2_adds, lemma_pow2_pos, lemma_pow2_strictly_increases, lemma_pow2_unfold,
    pow2,
};
use vstd::prelude::*;

verus! {

/// Rounding down twice, by `c` and then by `d`, is rounding down once by `c * d`.
pub proof fn lemma_floor_div_twice(x: int, c: int, d: int)
    requires
        0 < c,
        0 < d,
    ensures
        (x / c) / d == x / (c * d),
{
    let q1 = x / c;
    let r1 = x % c;
    let q2 = q1 / d;
    let r2 = q1 % d;
    lemma_fundamental_div_mod(x, c);
    lemma_fundamental_div_mod(q1, d);
    lemma_mod_bound(x, c);
    lemma_mod_bound(q1, d);
    assert(x == q2 * (c * d) + (c * r2 + r1) && 0 <= c * r2 + r1 < c * d) by (nonlinear_arith)
        requires
            x == c * q1 + r1,
            q1 == d * q2 + r2,
            0 <= r1 < c,
            0 <= r2 < d,
    ;
    lemma_fundamental_div_mod_converse(x, c * d, q2, c * r2 + r1);
}

/// An arithmetic right shift by `k` is division by `2^k`, rounding down.
pub proof fn lemma_shr_is_floor_div(x: i32, k: u32)
    requires
        k < 32,
    ensures
        (x >> k) as int == x as int / (pow2(k as nat) as int),
    decreases k,
{
    lemma2_to64();
    if k == 0 {
        assert(x >> 0u32 == x) by (bit_vector);
    } else {
        let j = (k - 1) as u32;
        lemma_shr_is_floor_div(x, j);
        assert(x >> k == (x >> j) >> 1u32) by (bit_vector)
            requires
                k == j + 1,
                k < 32,
        ;
        let y = x >> j;
        assert(y >> 1u32 == y / 2) by (bit_vector);
        lemma_pow2_pos(j as nat);
        lemma_floor_div_twice(x as int, pow2(j as nat) as int, 2);
        lemma_pow2_unfold(k as nat);
    }
}

/// A left shift by `k` that does not overflow is multiplication by `2^k`.
pub proof fn lemma_shl_is_mul(h: i32, k: u32)
    requires
        k < 32,
        i32::MIN <= h * pow2(k as nat) <= i32::MAX,
    ensures
        (h << k) as int == h * pow2(k as nat),
    decreases k,
{
    lemma2_to64();
    if k == 0 {
        assert(h << 0u32 == h) by (bit_vector);
        assert(h * pow2(0) == h);
    } else {
        let j = (k - 1) as u32;
        lemma_pow2_unfold(k as nat);
        lemma_pow2_pos(j as nat);
        let p = pow2(j as nat) as int;
        assert(h * pow2(k as nat) == 2 * (h * p)) by (nonlinear_arith)
            requires
                pow2(k as nat) == 2 * p,
        ;
        lemma_shl_is_mul(h, j);
        assert(h << k == (h << j) << 1u32) by (bit_vector)
            requires
                k == j + 1,
                k < 32,
        ;
        let z = h << j;
        assert(z == h * p);
        assert(-0x4000_0000 <= z < 0x4000_0000);
        assert(z << 1u32 == 2 * z) by (bit_vector)
            requires
                -0x4000_0000 <= z < 0x4000_0000,
        ;
    }
}

/// Masking with `2^k - 1` keeps the remainder modulo `2^k`.
pub proof fn lemma_mask_is_mod(x: i32, m: i32, k: u32)
    requires
        k <= 31,
        m as int == pow2(k as nat) - 1,
    ensures
        (x & m) as int == x as int % (pow2(k as nat) as int),
{
    lemma2_to64();
    if k == 31 {
        assert(x < 0 ==> (x & 0x7fff_ffffi32) == x + 1 + 0x7fff_ffffi32) by (bit_vector);
        assert(x >= 0 ==> (x & 0x7fff_ffffi32) == x) by (bit_vector);
        if x < 0 {
            lemma_fundamental_div_mod_converse(x as int, 0x8000_0000, -1, x + 0x8000_0000);
        } else {
            lemma_fundamental_div_mod_converse(x as int, 0x8000_0000, 0, x as int);
        }
        return;
    }
    lemma_pow2_pos(k as nat);
    lemma_pow2_strictly_increases(k as nat, 31);
    let p = pow2(k as nat) as int;
    let q = x >> k;
    lemma_shr_is_floor_div(x, k);
    lemma_fundamental_div_mod(x as int, p);
    lemma_mod_bound(x as int, p);
    lemma_shl_is_mul(1, k);
    // i32::MIN is a multiple of 2^k, so rounding x down to one stays in range
    let e = (31 - k) as nat;
    lemma_pow2_adds(e, k as nat);
    assert(pow2(31) == pow2(e) * p);
    assert(i32::MIN == (-pow2(e)) * p) by (nonlinear_arith)
        requires
            pow2(31) == pow2(e) * p,
            pow2(31) == 0x8000_0000,
    ;
    lemma_div_multiples_vanish(-pow2(e), p);
    lemma_div_is_ordered(i32::MIN as int, x as int, p);
    assert(i32::MIN <= q * p) by (nonlinear_arith)
        requires
            -pow2(e) <= q,
            i32::MIN == (-pow2(e)) * p,
            0 < p,
    ;
    assert(q * p <= x) by (nonlinear_arith)
        requires
            x as int == p * q + x as int % p,
            0 <= x as int % p,
    ;
    lemma_shl_is_mul(q, k);
    assert(x & m == x - (q << k)) by (bit_vector)
        requires
            q == x >> k,
            m == (1i32 << k) - 1,
            k < 31,
    ;
}

} // verus!

verus! {

/// Setting every bit outside the mask `m` subtracts `m + 1` from the masked value.
pub proof fn lemma_or_complement(x: i32, m: i32)
    ensures
        (x | !m) as int == (x & m) as int - m - 1,
{
    assert((x | !m) == (x & m) + !m) by (bit_vector);
    assert(!m == -m - 1) by (bit_vector);
}

/// With `b == 2^k` and `m == 2b - 1`, bit `k` of `x` is clear exactly when
/// the low `k + 1` bits of `x` are below `b`.
pub proof fn lemma_sign_bit(x: i32, m: i32, k: u32)
    requires
        k < 31,
        m as int == 2 * pow2(k as nat) - 1,
    ensures
        (x & (1i32 << k) == 0) <==> ((x & m) as int) < pow2(k as nat),
{
    lemma2_to64();
    lemma_pow2_strictly_increases(k as nat, 31);
    lemma_shl_is_mul(1, k);
    let b = 1i32 << k;
    assert(b & ((b - 1) as i32) == 0) by (bit_vector)
        requires
            b == 1i32 << k,
            k < 31,
    ;
    assert(0 < b <= 0x4000_0000 && b & ((b - 1) as i32) == 0 && m == 2 * b - 1 ==> ((x & b
        == 0) <==> ((x & m) < b))) by (bit_vector);
}

} // verus!
