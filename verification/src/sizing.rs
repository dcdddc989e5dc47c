//! Sizing arithmetic: from an expected element count and a target
//! false-positive rate, derive the number of hash probes `k` and the bit-array
//! length `m`.
//!
//! The false-positive rate is an exact rational `fp_num / fp_den` with
//! `0 < fp_num < fp_den`. The probe count is `k = ceil(log2(fp_den / fp_num))`,
//! the classic optimum `ceil(-log2(p))`, computed exactly in integer
//! arithmetic. The bit-array length is the standard space-minimizing size
//! `m = ceil(-items * ln(p) / (ln 2)^2)`, evaluated as
//! `ceil(items * log2(fp_den / fp_num) / ln 2)` in fixed point: the base-2
//! logarithm to 50 fractional binary digits by the mantissa-squaring digit
//! recurrence, `1 / ln 2` as a 61-bit scaled constant, intermediate results
//! rounded down and the final quotient rounded up, never below 1.
use vstd::arithmetic::div_mod::lemma_div_is_ordered;
use vstd::arithmetic::div_mod::lemma_div_multiples_vanish;
use vstd::arithmetic::div_mod::lemma_fundamental_div_mod;
use vstd::arithmetic::div_mod::lemma_mod_bound;
use vstd::arithmetic::mul::lemma_mul_inequality;
use vstd::arithmetic::mul::lemma_mul_is_associative;
use vstd::arithmetic::mul::lemma_mul_nonnegative;
use vstd::arithmetic::power2::pow2;
use vstd::prelude::*;

verus! {

/// One in the fixed-point mantissa representation: 2^62. A mantissa value `x`
/// stands for the real number `x / 2^62` in `[1, 2)`.
pub const MANTISSA_ONE: u128 = 4611686018427387904;

/// One in the fixed-point representation of a base-2 logarithm: 2^50. A
/// logarithm value `l` stands for the real number `l / 2^50`.
pub const FRAC_ONE: u64 = 1125899906842624;

/// `1 / ln 2` scaled by 2^61 and rounded to nearest:
/// 1.4426950408889634... * 2^61.
pub const INV_LN2_SCALED: u128 = 3326628274461080623;

/// Divisor taking `log2 * 2^50 * INV_LN2_SCALED` down to the 2^40
/// bits-per-item scale: 2^(50 + 61 - 40) = 2^71.
pub const BITS_PER_ITEM_DIV: u128 = 2361183241434822606848;

/// One in the fixed-point representation of bits per item: 2^40.
pub const ITEM_SCALE: u128 = 1099511627776;

/// The optimal number of hash probes for a false-positive rate of
/// `num / den`: the least `k >= 1` with `num * 2^k >= den`, which is
/// `ceil(log2(den / num))`, the classic `ceil(-log2(p))`.
pub open spec fn spec_optimal_k(num: int, den: int) -> int
    recommends
        0 < num < den,
    decreases den - num,
    when 0 < num < den
{
    if num * 2 >= den {
        1
    } else {
        1 + spec_optimal_k(num * 2, den)
    }
}

/// `floor(log2(den / num))` for `0 < num <= den`: the largest `e` with
/// `num * 2^e <= den`.
pub open spec fn spec_log2_floor(num: int, den: int) -> int
    recommends
        0 < num <= den,
    decreases den - num,
    when 0 < num <= den
{
    if num * 2 > den {
        0
    } else {
        1 + spec_log2_floor(num * 2, den)
    }
}

/// The mantissa of `den / num`: the ratio scaled down by its leading power of
/// two into `[1, 2)`, in fixed point (scaled by 2^62, rounded down).
pub open spec fn spec_mantissa(num: int, den: int) -> int
    recommends
        0 < num <= den,
{
    (den * (MANTISSA_ONE as int)) / (num * (pow2(spec_log2_floor(num, den) as nat) as int))
}

/// The first `count` fractional binary digits of `log2(x / 2^62)` for a
/// mantissa `x` in `[2^62, 2^63)`, as an integer in `[0, 2^count)`: the
/// classic digit recurrence that squares the mantissa (rounding down) and
/// emits a one exactly when the square reaches two.
pub open spec fn spec_log2_frac(x: int, count: nat) -> int
    decreases count,
{
    if count == 0 {
        0
    } else {
        let y = (x * x) / (MANTISSA_ONE as int);
        if y >= 2 * (MANTISSA_ONE as int) {
            (pow2((count - 1) as nat) as int) + spec_log2_frac(y / 2, (count - 1) as nat)
        } else {
            spec_log2_frac(y, (count - 1) as nat)
        }
    }
}

/// `log2(den / num)` in fixed point: the integer part and 50 fractional
/// binary digits, scaled by 2^50.
pub open spec fn spec_log2_fixed(num: int, den: int) -> int
    recommends
        0 < num < den,
{
    spec_log2_floor(num, den) * (FRAC_ONE as int) + spec_log2_frac(spec_mantissa(num, den), 50)
}

/// Bits per expected element, `log2(den / num) / ln 2`, scaled by 2^40.
pub open spec fn spec_bits_per_item(num: int, den: int) -> int
    recommends
        0 < num < den,
{
    spec_log2_fixed(num, den) * (INV_LN2_SCALED as int) / (BITS_PER_ITEM_DIV as int)
}

/// The bit-array length for `items` expected elements at a false-positive
/// rate of `num / den`: `ceil(-items * ln(num / den) / (ln 2)^2)`, that is
/// `ceil(items * log2(den / num) / ln 2)`, in the fixed point above and never
/// below 1.
pub open spec fn spec_bitmap_size(items: int, num: int, den: int) -> int
    recommends
        0 < num < den,
{
    let raw = (items * spec_bits_per_item(num, den) + (ITEM_SCALE as int - 1)) / (
    ITEM_SCALE as int);
    if raw < 1 {
        1
    } else {
        raw
    }
}

/// Division by a positive divisor stays below `c` when the dividend is below
/// `b * c`.
proof fn lemma_div_below(a: int, b: int, c: int)
    requires
        0 <= a,
        0 < b,
        a < b * c,
    ensures
        a / b < c,
{
    lemma_fundamental_div_mod(a, b);
    lemma_mod_bound(a, b);
    if a / b >= c {
        lemma_mul_inequality(c, a / b, b);
        assert(b * (a / b) == (a / b) * b) by (nonlinear_arith);
        assert(b * c == c * b) by (nonlinear_arith);
        assert(false);
    }
}

/// Division by a positive divisor reaches `c` when the dividend reaches
/// `b * c`.
proof fn lemma_div_at_least(a: int, b: int, c: int)
    requires
        0 < b,
        b * c <= a,
    ensures
        c <= a / b,
{
    lemma_div_is_ordered(b * c, a, b);
    lemma_div_multiples_vanish(c, b);
}

/// Integer division respects the order of the exact fractions:
/// `a2 / b2 <= a1 / b1` whenever `a2 * b1 <= a1 * b2`.
proof fn lemma_div_frac_ordered(a1: int, b1: int, a2: int, b2: int)
    requires
        0 < b1,
        0 < b2,
        0 <= a2,
        a2 * b1 <= a1 * b2,
    ensures
        a2 / b2 <= a1 / b1,
{
    let f2 = a2 / b2;
    lemma_fundamental_div_mod(a2, b2);
    lemma_mod_bound(a2, b2);
    assert(f2 * b1 <= a1) by (nonlinear_arith)
        requires
            b2 * f2 <= a2,
            a2 * b1 <= a1 * b2,
            0 < b1,
            0 < b2,
    ;
    lemma_div_at_least(a1, b1, f2);
}

/// The integer part of the logarithm satisfies its defining bounds:
/// `num * 2^e <= den < num * 2^(e+1)`.
proof fn lemma_log2_floor_sat(num: int, den: int)
    requires
        0 < num <= den,
    ensures
        0 <= spec_log2_floor(num, den),
        num * (pow2(spec_log2_floor(num, den) as nat) as int) <= den,
        den < num * (pow2((spec_log2_floor(num, den) + 1) as nat) as int),
    decreases den - num,
{
    vstd::arithmetic::power2::lemma2_to64();
    if num * 2 > den {
        let e = spec_log2_floor(num, den);
        assert(e == 0);
        assert(num * (pow2(e as nat) as int) == num) by (nonlinear_arith)
            requires
                pow2(e as nat) as int == 1,
        ;
        assert(num * (pow2((e + 1) as nat) as int) == num * 2) by (nonlinear_arith)
            requires
                pow2((e + 1) as nat) as int == 2,
        ;
    } else {
        lemma_log2_floor_sat(num * 2, den);
        let e_rest = spec_log2_floor(num * 2, den);
        let e = e_rest + 1;
        vstd::arithmetic::power2::lemma_pow2_adds(1, e_rest as nat);
        vstd::arithmetic::power2::lemma_pow2_adds(1, (e_rest + 1) as nat);
        let p_rest = pow2(e_rest as nat) as int;
        let p_rest1 = pow2((e_rest + 1) as nat) as int;
        assert(pow2(e as nat) as int == 2 * p_rest);
        assert(pow2((e + 1) as nat) as int == 2 * p_rest1);
        assert(num * (2 * p_rest) == (num * 2) * p_rest) by (nonlinear_arith);
        assert(num * (2 * p_rest1) == (num * 2) * p_rest1) by (nonlinear_arith);
    }
}

/// Squaring a mantissa in `[2^62, 2^63)` and rescaling lands in
/// `[2^62, 4 * 2^62)`.
proof fn lemma_square_range(x: int)
    requires
        MANTISSA_ONE as int <= x < 2 * (MANTISSA_ONE as int),
    ensures
        MANTISSA_ONE as int <= (x * x) / (MANTISSA_ONE as int),
        (x * x) / (MANTISSA_ONE as int) < 4 * (MANTISSA_ONE as int),
{
    let q = MANTISSA_ONE as int;
    assert(q * q <= x * x) by (nonlinear_arith)
        requires
            0 < q <= x,
    ;
    lemma_div_at_least(x * x, q, q);
    assert(x * x < q * (4 * q)) by (nonlinear_arith)
        requires
            0 < q,
            0 <= x < 2 * q,
    ;
    lemma_div_below(x * x, q, 4 * q);
}

/// After emitting a digit, the mantissa is back in `[2^62, 2^63)`.
proof fn lemma_digit_step_range(x: int)
    requires
        MANTISSA_ONE as int <= x < 2 * (MANTISSA_ONE as int),
    ensures
        ({
            let y = (x * x) / (MANTISSA_ONE as int);
            &&& (y >= 2 * (MANTISSA_ONE as int) ==> MANTISSA_ONE as int <= y / 2 < 2 * (
            MANTISSA_ONE as int))
            &&& (y < 2 * (MANTISSA_ONE as int) ==> MANTISSA_ONE as int <= y)
        }),
{
    let q = MANTISSA_ONE as int;
    lemma_square_range(x);
    let y = (x * x) / q;
    if y >= 2 * q {
        lemma_div_at_least(y, 2, q);
        lemma_div_below(y, 2, 2 * q);
    }
}

/// The fractional digits form an integer in `[0, 2^count)`.
proof fn lemma_log2_frac_bound(x: int, count: nat)
    requires
        MANTISSA_ONE as int <= x < 2 * (MANTISSA_ONE as int),
    ensures
        0 <= spec_log2_frac(x, count) < pow2(count) as int,
    decreases count,
{
    vstd::arithmetic::power2::lemma_pow2_pos(count);
    if count != 0 {
        let q = MANTISSA_ONE as int;
        lemma_digit_step_range(x);
        vstd::arithmetic::power2::lemma_pow2_unfold(count);
        let y = (x * x) / q;
        if y >= 2 * q {
            lemma_log2_frac_bound(y / 2, (count - 1) as nat);
        } else {
            lemma_log2_frac_bound(y, (count - 1) as nat);
        }
    }
}

/// The fractional digits are monotone in the mantissa.
proof fn lemma_log2_frac_monotone(x1: int, x2: int, count: nat)
    requires
        MANTISSA_ONE as int <= x1 <= x2 < 2 * (MANTISSA_ONE as int),
    ensures
        spec_log2_frac(x1, count) <= spec_log2_frac(x2, count),
    decreases count,
{
    if count != 0 {
        let q = MANTISSA_ONE as int;
        lemma_digit_step_range(x1);
        lemma_digit_step_range(x2);
        assert(x1 * x1 <= x2 * x2) by (nonlinear_arith)
            requires
                0 <= x1 <= x2,
        ;
        lemma_div_is_ordered(x1 * x1, x2 * x2, q);
        let y1 = (x1 * x1) / q;
        let y2 = (x2 * x2) / q;
        if y1 >= 2 * q {
            lemma_div_is_ordered(y1, y2, 2);
            lemma_log2_frac_monotone(y1 / 2, y2 / 2, (count - 1) as nat);
        } else if y2 < 2 * q {
            lemma_log2_frac_monotone(y1, y2, (count - 1) as nat);
        } else {
            lemma_log2_frac_bound(y1, (count - 1) as nat);
            lemma_log2_frac_bound(y2 / 2, (count - 1) as nat);
        }
    }
}

/// The mantissa lies in `[2^62, 2^63)`.
proof fn lemma_mantissa_range(num: int, den: int)
    requires
        0 < num <= den,
    ensures
        MANTISSA_ONE as int <= spec_mantissa(num, den) < 2 * (MANTISSA_ONE as int),
{
    let q = MANTISSA_ONE as int;
    let e = spec_log2_floor(num, den);
    lemma_log2_floor_sat(num, den);
    vstd::arithmetic::power2::lemma_pow2_unfold((e + 1) as nat);
    let p = pow2(e as nat) as int;
    let b = num * p;
    assert(num * (pow2((e + 1) as nat) as int) == 2 * b) by (nonlinear_arith)
        requires
            pow2((e + 1) as nat) as int == 2 * p,
            b == num * p,
    ;
    vstd::arithmetic::power2::lemma_pow2_pos(e as nat);
    assert(0 < b) by (nonlinear_arith)
        requires
            0 < num,
            0 < p,
            b == num * p,
    ;
    lemma_mul_inequality(b, den, q);
    assert(b * q == q * b) by (nonlinear_arith);
    lemma_div_at_least(den * q, b, q);
    assert(den * q < b * (2 * q)) by (nonlinear_arith)
        requires
            den < 2 * b,
            0 < q,
    ;
    lemma_div_below(den * q, b, 2 * q);
}

/// The fixed-point logarithm is non-negative.
proof fn lemma_log2_fixed_nonneg(num: int, den: int)
    requires
        0 < num < den,
    ensures
        0 <= spec_log2_fixed(num, den),
{
    lemma_log2_floor_sat(num, den);
    lemma_mantissa_range(num, den);
    lemma_log2_frac_bound(spec_mantissa(num, den), 50);
    lemma_mul_nonnegative(spec_log2_floor(num, den), FRAC_ONE as int);
}

/// The fixed-point logarithm is monotone in the ratio `den / num`: a rate
/// `num1 / den1 <= num2 / den2` — fraction-free, `num1 * den2 <= num2 * den1`
/// — has at least as large a logarithm.
proof fn lemma_log2_fixed_monotone(num1: int, den1: int, num2: int, den2: int)
    requires
        0 < num1 < den1,
        0 < num2 < den2,
        num1 * den2 <= num2 * den1,
    ensures
        spec_log2_fixed(num1, den1) >= spec_log2_fixed(num2, den2),
{
    vstd::arithmetic::power2::lemma2_to64_rest();
    let q = MANTISSA_ONE as int;
    let e1 = spec_log2_floor(num1, den1);
    let e2 = spec_log2_floor(num2, den2);
    lemma_log2_floor_sat(num1, den1);
    lemma_log2_floor_sat(num2, den2);
    lemma_mantissa_range(num1, den1);
    lemma_mantissa_range(num2, den2);
    let x1 = spec_mantissa(num1, den1);
    let x2 = spec_mantissa(num2, den2);
    lemma_log2_frac_bound(x1, 50);
    lemma_log2_frac_bound(x2, 50);
    assert(pow2(50) as int == FRAC_ONE as int);
    if e1 < e2 {
        // impossible: den1/num1 < 2^(e1+1) <= 2^e2 <= den2/num2 <= den1/num1
        if e1 + 1 < e2 {
            vstd::arithmetic::power2::lemma_pow2_strictly_increases((e1 + 1) as nat, e2 as nat);
        }
        assert(false) by (nonlinear_arith)
            requires
                0 < num1,
                0 < num2,
                0 < den1,
                0 < den2,
                num1 * den2 <= num2 * den1,
                den1 < num1 * (pow2((e1 + 1) as nat) as int),
                num2 * (pow2(e2 as nat) as int) <= den2,
                pow2((e1 + 1) as nat) as int <= pow2(e2 as nat) as int,
                0 < pow2((e1 + 1) as nat) as int,
        ;
    } else if e1 > e2 {
        lemma_mul_inequality(e2 + 1, e1, FRAC_ONE as int);
        assert((e2 + 1) * (FRAC_ONE as int) == e2 * (FRAC_ONE as int) + FRAC_ONE as int)
            by (nonlinear_arith);
    } else {
        // equal integer parts: compare mantissas, then fractional digits
        vstd::arithmetic::power2::lemma_pow2_pos(e1 as nat);
        let p = pow2(e1 as nat) as int;
        assert((den1 * q) * (num2 * p) >= (den2 * q) * (num1 * p)) by (nonlinear_arith)
            requires
                num1 * den2 <= num2 * den1,
                0 < q,
                0 < p,
        ;
        assert(0 < num1 * p && 0 < num2 * p) by (nonlinear_arith)
            requires
                0 < num1,
                0 < num2,
                0 < p,
        ;
        lemma_mul_nonnegative(den2, q);
        lemma_div_frac_ordered(den1 * q, num1 * p, den2 * q, num2 * p);
        lemma_log2_frac_monotone(x2, x1, 50);
    }
}

/// Computes the number of hash probes for a false-positive rate of
/// `fp_num / fp_den`.
pub fn optimal_k(fp_num: u64, fp_den: u64) -> (k: u32)
    requires
        0 < fp_num < fp_den,
    ensures
        k == spec_optimal_k(fp_num as int, fp_den as int),
        1 <= k <= 64,
{
    let den: u128 = fp_den as u128;
    let mut acc: u128 = fp_num as u128;
    let mut k: u32 = 1;
    proof {
        vstd::arithmetic::power2::lemma2_to64();
    }
    while acc * 2 < den
        invariant
            0 < acc < den <= u64::MAX,
            1 <= k <= 64,
            pow2((k - 1) as nat) <= acc,
            spec_optimal_k(fp_num as int, fp_den as int) == k - 1 + spec_optimal_k(
                acc as int,
                den as int,
            ),
        decreases den - acc,
    {
        proof {
            vstd::arithmetic::power2::lemma2_to64();
            vstd::arithmetic::power2::lemma2_to64_rest();
            assert(k <= 63);
            vstd::arithmetic::power2::lemma_pow2_unfold(k as nat);
        }
        acc = acc * 2;
        k = k + 1;
    }
    k
}

/// Computes `log2(fp_den / fp_num)` in 50-bit fixed point: the integer part
/// by doubling, then 50 fractional binary digits by the mantissa-squaring
/// digit recurrence.
fn log2_fixed(fp_num: u64, fp_den: u64) -> (l: u64)
    requires
        0 < fp_num < fp_den,
    ensures
        l == spec_log2_fixed(fp_num as int, fp_den as int),
        l < 72057594037927936,  // 64 * 2^50: at most 63 integer bits plus the fraction
{
    let den128: u128 = fp_den as u128;
    let mut scaled: u128 = fp_num as u128;
    let mut e: u32 = 0;
    proof {
        vstd::arithmetic::power2::lemma2_to64();
    }
    while scaled * 2 <= den128
        invariant
            0 < fp_num < fp_den,
            den128 == fp_den,
            0 < scaled <= den128 <= u64::MAX,
            e <= 63,
            scaled == fp_num * (pow2(e as nat) as int),
            pow2(e as nat) <= scaled,
            spec_log2_floor(fp_num as int, fp_den as int) == e + spec_log2_floor(
                scaled as int,
                den128 as int,
            ),
        decreases den128 - scaled,
    {
        proof {
            vstd::arithmetic::power2::lemma2_to64();
            vstd::arithmetic::power2::lemma2_to64_rest();
            assert(e <= 62);
            vstd::arithmetic::power2::lemma_pow2_unfold((e + 1) as nat);
            lemma_mul_is_associative(fp_num as int, 2, pow2(e as nat) as int);
            assert(fp_num * (2 * (pow2(e as nat) as int)) == 2 * (fp_num * (pow2(
                e as nat,
            ) as int))) by (nonlinear_arith);
        }
        scaled = scaled * 2;
        e = e + 1;
    }
    proof {
        assert(e == spec_log2_floor(fp_num as int, fp_den as int));
        lemma_mantissa_range(fp_num as int, fp_den as int);
        assert((den128 as int) * (MANTISSA_ONE as int) <= 0xffffffffffffffff * (
        MANTISSA_ONE as int)) by (nonlinear_arith)
            requires
                den128 <= 0xffffffffffffffff,
                0 < MANTISSA_ONE as int,
        ;
    }
    let x0: u128 = (den128 * MANTISSA_ONE) / scaled;
    let mut x: u128 = x0;
    let mut frac: u64 = 0;
    let mut t: u32 = 0;
    proof {
        vstd::arithmetic::power2::lemma2_to64();
        assert(x0 == spec_mantissa(fp_num as int, fp_den as int));
    }
    while t < 50
        invariant
            MANTISSA_ONE as int <= x < 2 * (MANTISSA_ONE as int),
            t <= 50,
            0 <= frac < pow2(t as nat),
            spec_log2_frac(x0 as int, 50) == frac * (pow2((50 - t) as nat) as int)
                + spec_log2_frac(x as int, (50 - t) as nat),
        decreases 50 - t,
    {
        proof {
            vstd::arithmetic::power2::lemma2_to64_rest();
            if t < 49 {
                vstd::arithmetic::power2::lemma_pow2_strictly_increases(t as nat, 49);
            }
            lemma_digit_step_range(x as int);
            assert((x as int) * (x as int) < (2 * (MANTISSA_ONE as int)) * (2 * (
            MANTISSA_ONE as int))) by (nonlinear_arith)
                requires
                    0 <= (x as int),
                    (x as int) < 2 * (MANTISSA_ONE as int),
            ;
            vstd::arithmetic::power2::lemma_pow2_unfold((50 - t) as nat);
        }
        let y: u128 = x * x / MANTISSA_ONE;
        let ghost frac_pre = frac as int;
        let ghost rest = (50 - t) as nat;
        if y >= 2 * MANTISSA_ONE {
            frac = frac * 2 + 1;
            x = y / 2;
        } else {
            frac = frac * 2;
            x = y;
        }
        proof {
            let bit: int = if frac as int == frac_pre * 2 + 1 {
                1
            } else {
                0
            };
            assert((frac_pre * 2 + bit) * (pow2((rest - 1) as nat) as int) == frac_pre * (pow2(
                rest,
            ) as int) + bit * (pow2((rest - 1) as nat) as int)) by (nonlinear_arith)
                requires
                    pow2(rest) as int == 2 * (pow2((rest - 1) as nat) as int),
            ;
            vstd::arithmetic::power2::lemma_pow2_unfold((t + 1) as nat);
        }
        t = t + 1;
    }
    proof {
        vstd::arithmetic::power2::lemma2_to64();
        vstd::arithmetic::power2::lemma2_to64_rest();
        assert(spec_log2_frac(x as int, (50 - t) as nat) == 0);
        assert((frac as int) * (pow2((50 - t) as nat) as int) == frac as int) by (nonlinear_arith)
            requires
                pow2((50 - t) as nat) as int == 1,
        ;
        assert(frac == spec_log2_frac(x0 as int, 50));
        assert(frac < FRAC_ONE);
        lemma_mul_inequality(e as int, 63, FRAC_ONE as int);
    }
    (e as u64) * FRAC_ONE + frac
}

/// Computes the bit-array length for `items_count` expected elements with a
/// false-positive rate of `fp_num / fp_den`, or `None` when that length does
/// not fit in `usize`.
pub fn try_bitmap_size(items_count: usize, fp_num: u64, fp_den: u64) -> (m: Option<usize>)
    requires
        1 <= items_count,
        0 < fp_num < fp_den,
    ensures
        match m {
            Some(v) => {
                &&& v == spec_bitmap_size(items_count as int, fp_num as int, fp_den as int)
                &&& 1 <= v
            },
            None => spec_bitmap_size(items_count as int, fp_num as int, fp_den as int)
                > usize::MAX,
        },
{
    let l = log2_fixed(fp_num, fp_den);
    proof {
        assert((l as int) * (INV_LN2_SCALED as int) < (BITS_PER_ITEM_DIV as int) * (
        140737488355328 as int)) by (nonlinear_arith)
            requires
                0 <= (l as int),
                (l as int) < 72057594037927936,
        ;
        lemma_mul_nonnegative(l as int, INV_LN2_SCALED as int);
        lemma_div_below(
            (l as int) * (INV_LN2_SCALED as int),
            BITS_PER_ITEM_DIV as int,
            140737488355328 as int,
        );
    }
    let w: u128 = (l as u128) * INV_LN2_SCALED / BITS_PER_ITEM_DIV;
    proof {
        vstd::arithmetic::div_mod::lemma_div_pos_is_pos(
            (l as int) * (INV_LN2_SCALED as int),
            BITS_PER_ITEM_DIV as int,
        );
        assert((items_count as int) * (w as int) <= 0xffffffffffffffff * (140737488355328 as int))
            by (nonlinear_arith)
            requires
                0 <= (items_count as int),
                (items_count as int) <= 0xffffffffffffffff,
                0 <= (w as int),
                (w as int) <= 140737488355328,
        ;
    }
    let prod: u128 = (items_count as u128) * w;
    let raw: u128 = (prod + (ITEM_SCALE - 1)) / ITEM_SCALE;
    let m128: u128 = if raw < 1 {
        1
    } else {
        raw
    };
    if m128 <= usize::MAX as u128 {
        Some(m128 as usize)
    } else {
        None
    }
}

/// Computes the bit-array length for `items_count` expected elements with a
/// false-positive rate of `fp_num / fp_den`.
pub fn bitmap_size(items_count: usize, fp_num: u64, fp_den: u64) -> (m: usize)
    requires
        1 <= items_count,
        0 < fp_num < fp_den,
        spec_bitmap_size(items_count as int, fp_num as int, fp_den as int) <= usize::MAX,
    ensures
        m == spec_bitmap_size(items_count as int, fp_num as int, fp_den as int),
        1 <= m,
{
    try_bitmap_size(items_count, fp_num, fp_den).unwrap()
}

/// The probe count satisfies its defining bound: `num * 2^k >= den`.
pub proof fn lemma_optimal_k_reaches_den(num: int, den: int)
    requires
        0 < num < den,
    ensures
        spec_optimal_k(num, den) >= 1,
        num * pow2(spec_optimal_k(num, den) as nat) >= den,
    decreases den - num,
{
    vstd::arithmetic::power2::lemma2_to64();
    if num * 2 >= den {
    } else {
        lemma_optimal_k_reaches_den(num * 2, den);
        let k_rest = spec_optimal_k(num * 2, den);
        vstd::arithmetic::power2::lemma_pow2_adds(1, k_rest as nat);
        lemma_mul_is_associative(num, 2, pow2(k_rest as nat) as int);
    }
}

/// The probe count is the least such exponent: any `j >= 1` with
/// `num * 2^j >= den` is at least `spec_optimal_k(num, den)`.
pub proof fn lemma_optimal_k_is_least(num: int, den: int, j: int)
    requires
        0 < num < den,
        1 <= j,
        num * pow2(j as nat) >= den,
    ensures
        spec_optimal_k(num, den) <= j,
    decreases den - num,
{
    vstd::arithmetic::power2::lemma2_to64();
    if num * 2 >= den {
    } else {
        assert(j >= 2) by {
            if j == 1 {
                assert(num * pow2(1) == num * 2);
            }
        }
        vstd::arithmetic::power2::lemma_pow2_adds(1, (j - 1) as nat);
        lemma_mul_is_associative(num, 2, pow2((j - 1) as nat) as int);
        lemma_optimal_k_is_least(num * 2, den, j - 1);
    }
}

/// Law: the probe count is monotone in the false-positive rate. For rates
/// given as rationals, `num1 / den1 <= num2 / den2` — stated fraction-free as
/// `num1 * den2 <= num2 * den1` — implies that the stricter (smaller) rate
/// needs at least as many probes.
pub proof fn lemma_optimal_k_monotone(num1: int, den1: int, num2: int, den2: int)
    requires
        0 < num1 < den1,
        0 < num2 < den2,
        num1 * den2 <= num2 * den1,
    ensures
        spec_optimal_k(num1, den1) >= spec_optimal_k(num2, den2),
{
    let k1 = spec_optimal_k(num1, den1);
    lemma_optimal_k_reaches_den(num1, den1);
    vstd::arithmetic::power2::lemma_pow2_pos(k1 as nat);
    assert(num2 * pow2(k1 as nat) >= den2) by (nonlinear_arith)
        requires
            0 < den1,
            0 < den2,
            pow2(k1 as nat) > 0,
            num1 * den2 <= num2 * den1,
            num1 * pow2(k1 as nat) >= den1,
    ;
    lemma_optimal_k_is_least(num2, den2, k1);
}

/// Law: sizing monotonicity in the expected element count. For a fixed
/// false-positive rate `num / den`, a larger expected element count yields at
/// least as many bits.
pub proof fn lemma_sizing_monotone_in_items(items1: int, items2: int, num: int, den: int)
    requires
        0 <= items1 <= items2,
        0 < num < den,
    ensures
        spec_bitmap_size(items1, num, den) <= spec_bitmap_size(items2, num, den),
{
    lemma_log2_fixed_nonneg(num, den);
    lemma_mul_nonnegative(spec_log2_fixed(num, den), INV_LN2_SCALED as int);
    vstd::arithmetic::div_mod::lemma_div_pos_is_pos(
        spec_log2_fixed(num, den) * (INV_LN2_SCALED as int),
        BITS_PER_ITEM_DIV as int,
    );
    let w = spec_bits_per_item(num, den);
    lemma_mul_inequality(items1, items2, w);
    lemma_div_is_ordered(
        items1 * w + (ITEM_SCALE as int - 1),
        items2 * w + (ITEM_SCALE as int - 1),
        ITEM_SCALE as int,
    );
}

/// Law: sizing monotonicity in the false-positive rate. A stricter (smaller)
/// rate `num1 / den1 <= num2 / den2` yields at least as many probes and at
/// least as many bits, for any fixed expected element count.
pub proof fn lemma_sizing_monotone_in_fp_rate(
    items: int,
    num1: int,
    den1: int,
    num2: int,
    den2: int,
)
    requires
        0 <= items,
        0 < num1 < den1,
        0 < num2 < den2,
        num1 * den2 <= num2 * den1,
    ensures
        spec_optimal_k(num1, den1) >= spec_optimal_k(num2, den2),
        spec_bitmap_size(items, num1, den1) >= spec_bitmap_size(items, num2, den2),
{
    lemma_optimal_k_monotone(num1, den1, num2, den2);
    lemma_log2_fixed_monotone(num1, den1, num2, den2);
    lemma_log2_fixed_nonneg(num1, den1);
    lemma_log2_fixed_nonneg(num2, den2);
    let l1 = spec_log2_fixed(num1, den1);
    let l2 = spec_log2_fixed(num2, den2);
    lemma_mul_inequality(l2, l1, INV_LN2_SCALED as int);
    lemma_div_is_ordered(
        l2 * (INV_LN2_SCALED as int),
        l1 * (INV_LN2_SCALED as int),
        BITS_PER_ITEM_DIV as int,
    );
    lemma_mul_nonnegative(l2, INV_LN2_SCALED as int);
    vstd::arithmetic::div_mod::lemma_div_pos_is_pos(
        l2 * (INV_LN2_SCALED as int),
        BITS_PER_ITEM_DIV as int,
    );
    let w1 = spec_bits_per_item(num1, den1);
    let w2 = spec_bits_per_item(num2, den2);
    lemma_mul_inequality(w2, w1, items);
    assert(items * w2 <= items * w1) by (nonlinear_arith)
        requires
            w2 <= w1,
            0 <= items,
    ;
    lemma_div_is_ordered(
        items * w2 + (ITEM_SCALE as int - 1),
        items * w1 + (ITEM_SCALE as int - 1),
        ITEM_SCALE as int,
    );
}

} // verus!
