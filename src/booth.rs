//! Booth multiplication with overlapping-window recoding: radix 4 (windows of
//! three bits, two new bits per iteration) and radix 8 (four bits, three new).
use crate::delay::{
    adder_delay, carry_select_delay, complement_delay, is_supported_width, mux_cost, mux_delay,
    parallel_delay, LATCH_DELAY,
};
use crate::recode::{booth_digit, radix4_coefficient, radix8_coefficient};
use crate::register::DoubleRegister;
use crate::twos::{
    lemma_floor_div_twice, lemma_mask_is_mod, lemma_shl_is_mul, lemma_shr_is_floor_div,
};
use crate::util::{
    ceil_div, ceiling_div, lemma_low_bits_signed_range, low_bits_signed, register_mask, sign_extend,
};
use vstd::arithmetic::div_mod::{
    lemma_fundamental_div_mod, lemma_fundamental_div_mod_converse, lemma_mod_bound,
};
use vstd::arithmetic::power2::{
    lemma2_to64, lemma_pow2_adds, lemma_pow2_pos, lemma_pow2_strictly_increases, pow2,
};
use vstd::math::max;
use vstd::prelude::*;

verus! {

/// The multiplier with an implicit zero below bit 0, shifted right past the
/// `i` groups of `group` bits that earlier iterations consumed.
pub open spec fn window_source(b: int, group: nat, i: nat) -> int {
    (2 * b) / (pow2(group * i) as int)
}

/// The `group + 1` bits of the multiplier that iteration `i` recodes.
pub open spec fn booth_window(b: int, group: nat, i: nat) -> int {
    window_source(b, group, i) % (pow2(group + 1) as int)
}

/// The coefficient that iteration `i` adds, as a multiple of the multiplicand.
pub open spec fn digit_at(b: int, group: nat, i: nat) -> int {
    booth_digit(booth_window(b, group, i), group)
}

/// The sum of the first `k` coefficients, each at its weight `2^(group * i)`.
pub open spec fn recoded_value(b: int, group: nat, k: nat) -> int
    decreases k,
{
    if k == 0 {
        0
    } else {
        recoded_value(b, group, (k - 1) as nat) + digit_at(b, group, (k - 1) as nat) * pow2(
            group * (k - 1) as nat,
        )
    }
}

/// How many of the first `k` coefficients are nonzero.
pub open spec fn nonzero_digits(b: int, group: nat, k: nat) -> nat
    decreases k,
{
    if k == 0 {
        0
    } else {
        nonzero_digits(b, group, (k - 1) as nat) + if digit_at(b, group, (k - 1) as nat) != 0 {
            1nat
        } else {
            0nat
        }
    }
}

/// `ceil(q / 2)`.
pub open spec fn half_up(q: int) -> int {
    (q + 1) / 2
}

/// Each coefficient is the difference of two neighbouring halved window sources.
pub proof fn lemma_digit_telescopes(b: int, group: nat, i: nat)
    requires
        group == 2 || group == 3,
    ensures
        window_source(b, group, i + 1) == window_source(b, group, i) / (pow2(group) as int),
        digit_at(b, group, i) == half_up(window_source(b, group, i)) - pow2(group) * half_up(
            window_source(b, group, i + 1),
        ),
{
    lemma2_to64();
    let q = window_source(b, group, i);
    let p = pow2(group) as int;
    let p2 = pow2(group + 1) as int;
    assert(group * (i + 1) == group * i + group) by (nonlinear_arith);
    lemma_pow2_adds(group * i, group);
    lemma_pow2_pos(group * i);
    lemma_pow2_pos(group);
    lemma_floor_div_twice(2 * b, pow2(group * i) as int, p);
    assert(p2 == 2 * p);
    let r = q / p2;
    let w = q % p2;
    lemma_fundamental_div_mod(q, p2);
    lemma_mod_bound(q, p2);
    let t: int = if w >= p {
        1
    } else {
        0
    };
    lemma_fundamental_div_mod_converse(q, p, 2 * r + t, w - t * p);
    lemma_fundamental_div_mod_converse(q + 1, 2, p * r + (w + 1) / 2, (w + 1) % 2);
    lemma_fundamental_div_mod_converse(2 * r + t + 1, 2, r + t, 1 - t);
}

/// The first `k` coefficients sum to the multiplier less what is not yet recoded.
pub proof fn lemma_recoded_closed_form(b: int, group: nat, k: nat)
    requires
        group == 2 || group == 3,
    ensures
        recoded_value(b, group, k) == b - half_up(window_source(b, group, k)) * pow2(group * k),
    decreases k,
{
    lemma2_to64();
    if k == 0 {
        assert(group * 0 == 0);
        assert((2 * b) / 1 == 2 * b);
        assert(window_source(b, group, 0) == 2 * b);
        lemma_fundamental_div_mod_converse(2 * b + 1, 2, b, 1);
    } else {
        let j = (k - 1) as nat;
        lemma_recoded_closed_form(b, group, j);
        lemma_digit_telescopes(b, group, j);
        assert(group * k == group * j + group) by (nonlinear_arith)
            requires
                k == j + 1,
        ;
        lemma_pow2_adds(group * j, group);
        let pj = pow2(group * j) as int;
        let hj = half_up(window_source(b, group, j));
        let hk = half_up(window_source(b, group, k));
        assert(b - hj * pj + (hj - pow2(group) * hk) * pj == b - hk * (pow2(group) * pj))
            by (nonlinear_arith);
    }
}

/// A recoded coefficient lies within `-2^(group - 1) ..= 2^(group - 1)`.
pub proof fn lemma_digit_range(b: int, group: nat, i: nat)
    requires
        group == 2 || group == 3,
    ensures
        -pow2((group - 1) as nat) <= digit_at(b, group, i) <= pow2((group - 1) as nat),
{
    lemma2_to64();
    lemma_mod_bound(window_source(b, group, i), pow2(group + 1) as int);
}

/// The first `k` coefficients, at their weights, sum to less than `2^(group * k)`
/// in magnitude.
pub proof fn lemma_recoded_bound(b: int, group: nat, k: nat)
    requires
        group == 2 || group == 3,
    ensures
        -pow2(group * k) < recoded_value(b, group, k) < pow2(group * k),
    decreases k,
{
    lemma2_to64();
    if k == 0 {
        assert(group * 0 == 0);
    } else {
        let j = (k - 1) as nat;
        lemma_recoded_bound(b, group, j);
        lemma_digit_range(b, group, j);
        assert(group * k == group * j + group) by (nonlinear_arith)
            requires
                k == j + 1,
        ;
        lemma_pow2_adds(group * j, group);
        lemma_pow2_pos(group * j);
        let pj = pow2(group * j) as int;
        let d = digit_at(b, group, j);
        let half = pow2((group - 1) as nat) as int;
        let r = recoded_value(b, group, j);
        assert(-pow2(group) * pj < r + d * pj < pow2(group) * pj) by (nonlinear_arith)
            requires
                -pj < r < pj,
                -half <= d <= half,
                0 < pj,
                1 + half <= pow2(group),
        ;
    }
}

/// Once the windows have passed the sign bit, the coefficients sum to the multiplier.
pub proof fn lemma_recoded_complete(b: int, group: nat, n: nat, k: nat)
    requires
        group == 2 || group == 3,
        n >= 1,
        -pow2((n - 1) as nat) <= b < pow2((n - 1) as nat),
        group * k >= n + 1,
    ensures
        recoded_value(b, group, k) == b,
{
    lemma_recoded_closed_form(b, group, k);
    let p = pow2(group * k) as int;
    lemma_pow2_adds((n - 1) as nat, 2);
    lemma2_to64();
    if group * k > n + 1 {
        lemma_pow2_strictly_increases(n + 1, group * k);
    }
    assert(((n - 1) as nat) + 2 == n + 1);
    if b >= 0 {
        lemma_fundamental_div_mod_converse(2 * b, p, 0, 2 * b);
    } else {
        lemma_fundamental_div_mod_converse(2 * b, p, -1, 2 * b + p);
    }
    assert(half_up(0) == 0);
    assert(half_up(-1) == 0);
}

/// One iteration of the register: after the shift by `group` bits the
/// register holds the multiplicand times the coefficients so far, aligned
/// with the multiplicand's place; adding the next coefficient's multiple
/// there gives the next such value. Both stay well inside `i32`.
pub proof fn lemma_accumulate(sa: int, sb: int, group: nat, n: nat, k: nat)
    requires
        group == 2 || group == 3,
        4 <= n <= 12,
        group * k <= n,
        -pow2((n - 1) as nat) <= sa < pow2((n - 1) as nat),
    ensures
        ({
            let before = sa * (recoded_value(sb, group, k) * pow2((n + group - group * k) as nat));
            let shifted = sa * (recoded_value(sb, group, k) * pow2((n - group * k) as nat));
            let next = sa * (recoded_value(sb, group, k + 1) * pow2(
                (n + group - group * (k + 1)) as nat,
            ));
            &&& before / (pow2(group) as int) == shifted
            &&& next == shifted + digit_at(sb, group, k) * sa * pow2(n)
            &&& -0x400_0000 < shifted < 0x400_0000
            &&& -0x400_0000 < next < 0x400_0000
        }),
{
    lemma2_to64();
    let e = (n - group * k) as nat;
    let r = recoded_value(sb, group, k);
    let r1 = recoded_value(sb, group, k + 1);
    let d = digit_at(sb, group, k);
    let pe = pow2(e) as int;
    let pg = pow2(group) as int;
    let pgk = pow2(group * k) as int;
    assert((n + group - group * k) as nat == e + group);
    lemma_pow2_adds(e, group);
    lemma_pow2_adds(group * k, e);
    assert(group * k + e == n);
    lemma_pow2_pos(group);
    lemma_pow2_pos(e);
    lemma_pow2_pos(group * k);
    assert(sa * (r * (pe * pg)) == (sa * (r * pe)) * pg) by (nonlinear_arith);
    vstd::arithmetic::div_mod::lemma_div_multiples_vanish(sa * (r * pe), pg);
    assert((sa * (r * pe)) * pg == pg * (sa * (r * pe))) by (nonlinear_arith);
    // next
    assert(group * (k + 1) == group * k + group) by (nonlinear_arith);
    assert((n + group - group * (k + 1)) as nat == e);
    assert(r1 == r + d * pgk);
    assert(sa * (r1 * pe) == sa * (r * pe) + d * sa * (pgk * pe)) by (nonlinear_arith)
        requires
            r1 == r + d * pgk,
    ;
    // bounds
    lemma_recoded_bound(sb, group, k);
    lemma_recoded_bound(sb, group, k + 1);
    lemma_pow2_adds(group * (k + 1), e);
    assert(group * (k + 1) + e == n + group);
    let half = pow2((n - 1) as nat) as int;
    lemma_pow2_strictly_increases((n - 1) as nat, 12);
    lemma_pow2_strictly_increases(n, 13);
    lemma_pow2_strictly_increases(n + group, 16);
    let big = pow2(n + group) as int;
    let pgk1 = pow2(group * (k + 1)) as int;
    assert(-0x400_0000 < sa * (r * pe) < 0x400_0000) by (nonlinear_arith)
        requires
            -half <= sa < half,
            half <= 0x800,
            -pgk < r < pgk,
            0 < pe,
            pgk * pe <= 0x2000,
    ;
    assert(-0x400_0000 < sa * (r1 * pe) < 0x400_0000) by (nonlinear_arith)
        requires
            -half <= sa < half,
            half <= 0x800,
            -pgk1 < r1 < pgk1,
            0 < pe,
            pgk1 * pe == big,
            big <= 0x8000,
    ;
}

/// The number of iterations covers the multiplier and its sign bit exactly.
pub proof fn lemma_iteration_count(n: int, group: int)
    requires
        group == 2 || group == 3,
        n >= 1,
    ensures
        ({
            let m = ceil_div(n + 1, group);
            &&& m >= 1
            &&& group * (m - 1) <= n
            &&& group * m >= n + 1
            &&& n + group - group * m == n % group
        }),
{
    let m = ceil_div(n + 1, group);
    assert(m == (n + group) / group);
    lemma_fundamental_div_mod(n + group, group);
    lemma_mod_bound(n + group, group);
    lemma_fundamental_div_mod_converse(n, group, m - 1, (n + group) % group);
}

/// The one-time cost of precomputing the multiples of the multiplicand: a
/// complement, and for radix 8 also an addition (the triple).
pub open spec fn precompute_delay(n: u32, group: nat) -> int {
    n + if group == 3 {
        adder_delay(n) as int
    } else {
        0
    }
}

/// The critical path of one iteration: adding the selected multiple (or
/// passing the register through) in parallel with decoding the next window.
pub open spec fn iteration_delay(n: u32, group: nat, adds: bool) -> int {
    max(
        if adds {
            (adder_delay(n) + mux_cost(1)) as int
        } else {
            mux_cost(1) as int
        },
        mux_cost(group + 1) as int,
    )
}

/// The delay of a whole multiplication of `iterations` iterations, of which
/// `additions` add a multiple: the precomputation, each iteration's critical
/// path, and a latch between consecutive iterations.
pub open spec fn total_delay(n: u32, group: nat, iterations: nat, additions: nat) -> int {
    precompute_delay(n, group) + additions * iteration_delay(n, group, true) + (iterations
        - additions) * iteration_delay(n, group, false) + (iterations - 1) * LATCH_DELAY
}

/// The delay after one more iteration: a latch unless it is the first, then
/// the iteration's own critical path.
pub proof fn lemma_delay_step(n: u32, group: nat, k: nat, additions: nat, adds: bool)
    requires
        additions <= k,
    ensures
        total_delay(n, group, k + 1, additions + if adds {
            1nat
        } else {
            0nat
        }) == (if k == 0 {
            precompute_delay(n, group)
        } else {
            total_delay(n, group, k, additions) + LATCH_DELAY
        }) + iteration_delay(n, group, adds),
{
    let t = iteration_delay(n, group, true);
    let f = iteration_delay(n, group, false);
    let pre = precompute_delay(n, group);
    let a = additions as int;
    let kk = k as int;
    let l = LATCH_DELAY as int;
    if adds {
        assert(pre + (a + 1) * t + (kk + 1 - (a + 1)) * f + kk * l == (if kk == 0 {
            pre
        } else {
            pre + a * t + (kk - a) * f + (kk - 1) * l + l
        }) + t) by (nonlinear_arith)
            requires
                0 <= a <= kk,
        ;
    } else {
        assert(pre + a * t + (kk + 1 - a) * f + kk * l == (if kk == 0 {
            pre
        } else {
            pre + a * t + (kk - a) * f + (kk - 1) * l + l
        }) + f) by (nonlinear_arith)
            requires
                0 <= a <= kk,
        ;
    }
}

/// What a multiplication reports: the product and its simulated hardware cost.
#[derive(Clone, Copy, Debug, PartialEq, Eq, Structural)]
pub struct Results {
    pub product: i32,
    pub iterations: u32,
    pub additions: u32,
    pub delay: u32,
}

#[derive(Clone, Copy, Debug, PartialEq, Eq, Structural)]
pub enum BoothError {
    /// The delay model has no calibration for this operand width.
    UnsupportedWidth(u32),
}

/// What a Booth multiplication with groups of `group` bits reports for the
/// `n`-bit operands `a` and `b`.
pub open spec fn booth_results(a: i32, b: i32, n: u32, group: nat) -> Results {
    let iterations = ceil_div(n + 1, group as int);
    let additions = nonzero_digits(low_bits_signed(b as int, n as nat), group, iterations as nat);
    Results {
        product: (low_bits_signed(a as int, n as nat) * low_bits_signed(b as int, n as nat)) as i32,
        iterations: iterations as u32,
        additions: additions as u32,
        delay: total_delay(n, group, iterations as nat, additions) as u32,
    }
}

/// The Booth loop shared by both radices: windows of `group + 1` bits, `group`
/// new bits per iteration; `adder` is the calibrated adder delay for `n` bits.
fn booth_multiply(a: i32, b: i32, n: u32, group: u32, adder: u32) -> (r: Results)
    requires
        is_supported_width(n),
        group == 2 || group == 3,
        adder == adder_delay(n),
    ensures
        r.product == low_bits_signed(a as int, n as nat) * low_bits_signed(b as int, n as nat),
        r.iterations == ceil_div(n + 1, group as int),
        r.additions == nonzero_digits(
            low_bits_signed(b as int, n as nat),
            group as nat,
            r.iterations as nat,
        ),
        r.delay == total_delay(n, group as nat, r.iterations as nat, r.additions as nat),
{
    let a = sign_extend(a, n);
    let b = sign_extend(b, n);
    let ghost g = group as nat;
    proof {
        lemma2_to64();
        lemma_low_bits_signed_range(a as int, n as nat);
        lemma_low_bits_signed_range(b as int, n as nat);
        lemma_pow2_strictly_increases((n - 1) as nat, 12);
        lemma_iteration_count(n as int, group as int);
    }

    let mut additions: u32 = 0;
    // The multiples of the multiplicand are precomputed. The slowest is the
    // negated double (a shift and a complement), or for radix 8 the negated
    // triple, which needs an addition as well.
    let mut delay: u32 = complement_delay(n);
    if group == 3 {
        delay = delay + adder;
    }
    let add_delay = parallel_delay(adder + mux_delay(1), mux_delay(group + 1));
    let pass_delay = parallel_delay(mux_delay(1), mux_delay(group + 1));
    let window_mask = register_mask(group + 1);

    // Shift the multiplier left, inserting a zero below bit 0.
    proof {
        lemma_shl_is_mul(b, 1);
    }
    let mut multiplier: i32 = b << 1;
    let mut pq = DoubleRegister::new(n);
    let m = ceiling_div(n + 1, group);
    let mut k: u32 = 0;
    proof {
        assert(m <= 7) by (nonlinear_arith)
            requires
                g * (m - 1) <= n <= 12,
                g >= 2,
        ;
        assert(window_source(b as int, g, 0) == 2 * b) by {
            assert(g * 0 == 0);
            assert((2 * b) / 1 == 2 * b);
        }
        assert(recoded_value(b as int, g, 0) == 0);
        assert(a * (0 * pow2((n + g - g * 0) as nat)) == 0);
    }

    while k < m
        invariant
            is_supported_width(n),
            group == 2 || group == 3,
            g == group,
            adder == adder_delay(n),
            m == ceil_div(n + 1, group as int),
            g * (m - 1) <= n,
            0 <= k <= m,
            m <= 7,
            delay <= 30 + 20 * k,
            add_delay <= 16,
            pass_delay <= 16,
            -pow2((n - 1) as nat) <= a < pow2((n - 1) as nat),
            pow2((n - 1) as nat) <= 0x800,
            window_mask == pow2(g + 1) - 1,
            add_delay == iteration_delay(n, g, true),
            pass_delay == iteration_delay(n, g, false),
            multiplier == window_source(b as int, g, k as nat),
            pq.spec_low_bits() == n,
            pq.spec_value() == a * (recoded_value(b as int, g, k as nat) * pow2(
                (n + g - g * k) as nat,
            )),
            additions == nonzero_digits(b as int, g, k as nat),
            additions <= k,
            delay == if k == 0 {
                precompute_delay(n, g)
            } else {
                total_delay(n, g, k as nat, additions as nat)
            },
        decreases m - k,
    {
        if k > 0 {
            // Shift and latch between iterations.
            delay = delay + LATCH_DELAY;
        }
        proof {
            assert(g * k <= g * (m - 1)) by (nonlinear_arith)
                requires
                    k <= m - 1,
                    g >= 0,
            ;
            lemma_accumulate(a as int, b as int, g, n as nat, k as nat);
            lemma_digit_telescopes(b as int, g, k as nat);
            lemma2_to64();
            lemma_mask_is_mod(multiplier, window_mask, (group + 1) as u32);
            lemma_mod_bound(multiplier as int, pow2(g + 1) as int);
        }
        let ghost old_additions = additions;
        // Shift PQ right by one group, preserving the sign.
        pq.shift_right(group);

        // Recode the low window of the multiplier.
        let window = multiplier & window_mask;
        let coefficient = if group == 2 {
            radix4_coefficient(window)
        } else {
            radix8_coefficient(window)
        };
        proof {
            assert(-0x2000 <= coefficient * a <= 0x2000) by (nonlinear_arith)
                requires
                    -4 <= coefficient <= 4,
                    -0x800 <= a <= 0x800,
            ;
        }
        if coefficient != 0 {
            // Add the selected multiple of the multiplicand to the high half.
            let high = pq.high();
            proof {
                let v = pq.spec_value();
                let p = pow2(n as nat) as int;
                lemma_pow2_pos(n as nat);
                lemma_fundamental_div_mod(v, p);
                lemma_mod_bound(v, p);
                assert((high + coefficient * a) * p == v - v % p + coefficient * a * p)
                    by (nonlinear_arith)
                    requires
                        v == p * high + v % p,
                ;
                assert(-0x400_0000 <= high <= 0x400_0000) by (nonlinear_arith)
                    requires
                        v == p * high + v % p,
                        0 <= v % p < p,
                        1 <= p,
                        -0x400_0000 < v < 0x400_0000,
                ;
            }
            pq.set_high(high + coefficient * a);
            delay = delay + add_delay;
            additions = additions + 1;
        } else {
            delay = delay + pass_delay;
            proof {
                let d = digit_at(b as int, g, k as nat);
                assert(d == 0);
                assert(d * a * pow2(n as nat) == 0) by (nonlinear_arith)
                    requires
                        d == 0,
                ;
            }
        }

        // Shift the multiplier right by one group, preserving the sign.
        proof {
            lemma_shr_is_floor_div(multiplier, group);
        }
        multiplier = multiplier >> group;
        proof {
            lemma_delay_step(n, g, k as nat, old_additions as nat, coefficient != 0);
        }
        k = k + 1;
    }

    // Align the product: the iterations shifted in `n mod group` bits too few.
    proof {
        lemma_iteration_count(n as int, group as int);
        lemma_recoded_complete(b as int, g, n as nat, m as nat);
        let p = pow2((n % group) as nat) as int;
        assert((n + g - g * m) as nat == (n % group) as nat);
        lemma_pow2_pos((n % group) as nat);
        assert(a * (b * p) == p * (a * b)) by (nonlinear_arith);
        vstd::arithmetic::div_mod::lemma_div_multiples_vanish(a * b, p);
    }
    pq.shift_right(n % group);
    Results { product: pq.value(), iterations: m, additions, delay }
}

/// What `booth_multiply` returns, as the report of a multiplication.
proof fn lemma_results_match(a: i32, b: i32, n: u32, group: nat, r: Results)
    requires
        is_supported_width(n),
        group == 2 || group == 3,
        r.product == low_bits_signed(a as int, n as nat) * low_bits_signed(b as int, n as nat),
        r.iterations == ceil_div(n + 1, group as int),
        r.additions == nonzero_digits(
            low_bits_signed(b as int, n as nat),
            group,
            r.iterations as nat,
        ),
        r.delay == total_delay(n, group, r.iterations as nat, r.additions as nat),
    ensures
        r == booth_results(a, b, n, group),
{
}

/// Multiplies the `n`-bit two's-complement operands `a` and `b` (their low
/// `n` bits) with radix-4 Booth recoding, and reports the simulated cost.
pub fn booth3(a: i32, b: i32, n: u32) -> (r: Result<Results, BoothError>)
    ensures
        r == (if is_supported_width(n) {
            Ok(booth_results(a, b, n, 2))
        } else {
            Err(BoothError::UnsupportedWidth(n))
        }),
        r is Ok ==> r->Ok_0.product == low_bits_signed(a as int, n as nat) * low_bits_signed(
            b as int,
            n as nat,
        ),
        r is Ok ==> r->Ok_0.iterations == ceil_div(n + 1, 2),
{
    match carry_select_delay(n) {
        None => Err(BoothError::UnsupportedWidth(n)),
        Some(adder) => {
            let r = booth_multiply(a, b, n, 2, adder);
            proof {
                lemma_results_match(a, b, n, 2, r);
            }
            Ok(r)
        },
    }
}

/// Multiplies the `n`-bit two's-complement operands `a` and `b` (their low
/// `n` bits) with radix-8 Booth recoding, and reports the simulated cost.
pub fn booth4(a: i32, b: i32, n: u32) -> (r: Result<Results, BoothError>)
    ensures
        r == (if is_supported_width(n) {
            Ok(booth_results(a, b, n, 3))
        } else {
            Err(BoothError::UnsupportedWidth(n))
        }),
        r is Ok ==> r->Ok_0.product == low_bits_signed(a as int, n as nat) * low_bits_signed(
            b as int,
            n as nat,
        ),
        r is Ok ==> r->Ok_0.iterations == ceil_div(n + 1, 3),
{
    match carry_select_delay(n) {
        None => Err(BoothError::UnsupportedWidth(n)),
        Some(adder) => {
            let r = booth_multiply(a, b, n, 3, adder);
            proof {
                lemma_results_match(a, b, n, 3, r);
            }
            Ok(r)
        },
    }
}

/// Radix-4 and radix-8 recoding compute the same product for every pair of
/// operands of a supported width.
pub proof fn lemma_radix4_radix8_agree(a: i32, b: i32, n: u32)
    requires
        is_supported_width(n),
    ensures
        booth_results(a, b, n, 2).product == booth_results(a, b, n, 3).product,
{
}

/// For a fixed width and radix, the delay never decreases as the number of
/// iterations that add a multiple grows.
pub proof fn lemma_delay_monotonic(n: u32, group: nat, iterations: nat, fewer: nat, more: nat)
    requires
        is_supported_width(n),
        group == 2 || group == 3,
        fewer <= more <= iterations,
    ensures
        total_delay(n, group, iterations, fewer) <= total_delay(n, group, iterations, more),
{
    let t = iteration_delay(n, group, true);
    let f = iteration_delay(n, group, false);
    assert(f <= t);
    assert(fewer * t + (iterations - fewer) * f <= more * t + (iterations - more) * f)
        by (nonlinear_arith)
        requires
            f <= t,
            fewer <= more <= iterations,
    ;
}

/// Of two multiplications of the same width and radix, the one with more
/// additions has at least the delay of the other.
pub proof fn lemma_more_additions_more_delay(a1: i32, b1: i32, a2: i32, b2: i32, n: u32, group: nat)
    requires
        is_supported_width(n),
        group == 2 || group == 3,
        booth_results(a1, b1, n, group).additions <= booth_results(a2, b2, n, group).additions,
    ensures
        booth_results(a1, b1, n, group).delay <= booth_results(a2, b2, n, group).delay,
{
    let m = ceil_div(n + 1, group as int);
    lemma_iteration_count(n as int, group as int);
    assert(m <= 7) by (nonlinear_arith)
        requires
            group * (m - 1) <= n <= 12,
            group >= 2,
    ;
    let x = nonzero_digits(low_bits_signed(b1 as int, n as nat), group, m as nat);
    let y = nonzero_digits(low_bits_signed(b2 as int, n as nat), group, m as nat);
    lemma_nonzero_digits_bound(low_bits_signed(b1 as int, n as nat), group, m as nat);
    lemma_nonzero_digits_bound(low_bits_signed(b2 as int, n as nat), group, m as nat);
    lemma_delay_monotonic(n, group, m as nat, x, y);
    lemma_delay_range(n, group, m as nat, x);
    lemma_delay_range(n, group, m as nat, y);
}

/// At most `k` of the first `k` coefficients are nonzero.
pub proof fn lemma_nonzero_digits_bound(b: int, group: nat, k: nat)
    ensures
        nonzero_digits(b, group, k) <= k,
    decreases k,
{
    if k > 0 {
        lemma_nonzero_digits_bound(b, group, (k - 1) as nat);
    }
}

/// The delay of a multiplication of at most seven iterations fits easily in a `u32`.
proof fn lemma_delay_range(n: u32, group: nat, iterations: nat, additions: nat)
    requires
        is_supported_width(n),
        group == 2 || group == 3,
        1 <= iterations <= 7,
        additions <= iterations,
    ensures
        0 <= total_delay(n, group, iterations, additions) <= 200,
{
    let t = iteration_delay(n, group, true);
    let f = iteration_delay(n, group, false);
    assert(0 <= additions * t + (iterations - additions) * f <= 7 * 16) by (nonlinear_arith)
        requires
            0 <= f <= t <= 16,
            additions <= iterations <= 7,
    ;
}

} // verus!
