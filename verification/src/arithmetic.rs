//! The two rounded operations of the affine maps, product and sum, worked
//! out on the patterns with integers alone.

use vstd::prelude::*;
use vstd::arithmetic::power2::*;
use vstd::arithmetic::div_mod::{lemma_fundamental_div_mod, lemma_mod_bound};
use vstd::bits::lemma_u64_shl_is_mul;
use crate::binary64::{
    absolute, exponent_field, fraction_field, is_finite, is_infinite, is_nan, is_negative,
    is_zero, lemma_absolute_increases, lemma_value_of_zero, magnitude, negated, shift,
    significand, value, HIDDEN_BIT, INFINITY, NAN, SIGN_MASK, ZERO,
};
use crate::rounding::{
    lemma_absolute_is_not_negative, lemma_next_significand, lemma_rounded_exists,
    lemma_rounded_is, lemma_rounds_between, lemma_rounds_exact, lemma_rounds_negated,
    lemma_rounds_scaled, lemma_rounds_to_infinity, lemma_successor, rounded, rounds_units,
};

verus! {

/// The product of two numbers: their exact product, rounded. Its sign is
/// made of theirs, also where it is a zero or an infinity. Zero times
/// infinity, and any product with a NaN, is the NaN.
#[verifier::opaque]
pub open spec fn product_spec(a: u64, b: u64) -> u64 {
    let negative: bool = is_negative(a) != is_negative(b);
    if is_nan(a) || is_nan(b) || (is_infinite(a) && is_zero(b)) || (is_zero(a) && is_infinite(b)) {
        NAN
    } else if is_infinite(a) || is_infinite(b) {
        if negative {
            negated(INFINITY)
        } else {
            INFINITY
        }
    } else {
        rounded(value(a) * value(b), pow2(1074) as int, negative)
    }
}

/// The sum of two numbers: their exact sum, rounded. An exact sum of zero
/// is positive zero, unless both numbers are negative zeros. An infinity
/// plus a finite number or plus itself is that infinity; the two
/// infinities together, and any sum with a NaN, give the NaN.
#[verifier::opaque]
pub open spec fn sum_spec(a: u64, b: u64) -> u64 {
    if is_nan(a) || is_nan(b) || (is_infinite(a) && is_infinite(b) && is_negative(a)
        != is_negative(b)) {
        NAN
    } else if is_infinite(a) {
        a
    } else if is_infinite(b) {
        b
    } else if value(a) + value(b) == 0 {
        if is_negative(a) && is_negative(b) {
            negated(ZERO)
        } else {
            ZERO
        }
    } else {
        rounded(value(a) + value(b), 1, value(a) + value(b) < 0)
    }
}

/// The product of two numbers.
#[verifier::when_used_as_spec(product_spec)]
pub fn product(a: u64, b: u64) -> (r: u64)
    ensures
        r == product_spec(a, b),
{
    proof {
        reveal(product_spec);
    }
    let ma: u64 = if a >= SIGN_MASK { a - SIGN_MASK } else { a };
    let mb: u64 = if b >= SIGN_MASK { b - SIGN_MASK } else { b };
    let negative: bool = (a >= SIGN_MASK) != (b >= SIGN_MASK);
    if ma > INFINITY || mb > INFINITY {
        return NAN;
    }
    if ma == INFINITY || mb == INFINITY {
        if ma == 0 || mb == 0 {
            return NAN;
        }
        return with_sign(INFINITY, negative);
    }
    if ma == 0 || mb == 0 {
        let zero: u64 = with_sign(ZERO, negative);
        proof {
            lemma_product_with_zero(a, b, zero);
            lemma_pow2_pos(1074);
            lemma_rounded_is(value(a) * value(b), pow2(1074) as int, negative, zero);
        }
        return zero;
    }
    let (sa, ha) = parts(ma);
    let (sb, hb) = parts(mb);
    proof {
        lemma2_to64_rest();
        lemma_wide();
        assert(0 < sa * sb < WIDE) by (nonlinear_arith)
            requires
                0 < sa < 0x20_0000_0000_0000,
                0 < sb < 0x20_0000_0000_0000,
                WIDE == 0x4000_0000_0000_0000_0000_0000_0000,
        ;
    }
    let p: u128 = (sa as u128) * (sb as u128);
    let e: i64 = ha + hb - 1074;
    let mag: u64 = round_scaled(p, e);
    let r: u64 = with_sign(mag, negative);
    proof {
        lemma_product_rounds(a, b, mag);
        lemma_rounds_signed(absolute(a) * absolute(b), pow2(1074) as int, mag, negative);
        let x: int = absolute(a);
        let y: int = absolute(b);
        assert((-x) * y == -(x * y) && x * (-y) == -(x * y) && (-x) * (-y) == x * y)
            by (nonlinear_arith);
        lemma_pow2_pos(1074);
        lemma_rounded_is(value(a) * value(b), pow2(1074) as int, negative, r);
    }
    r
}

/// The sum of two numbers.
#[verifier::when_used_as_spec(sum_spec)]
#[verifier::rlimit(30)]
pub fn sum(a: u64, b: u64) -> (r: u64)
    ensures
        r == sum_spec(a, b),
{
    let na: bool = a >= SIGN_MASK;
    let nb: bool = b >= SIGN_MASK;
    let ma: u64 = if na { a - SIGN_MASK } else { a };
    let mb: u64 = if nb { b - SIGN_MASK } else { b };
    proof {
        lemma_sum_without_rounding(a, b);
    }
    if ma > INFINITY || mb > INFINITY {
        NAN
    } else if ma == INFINITY {
        if mb == INFINITY && na != nb {
            NAN
        } else {
            a
        }
    } else if mb == INFINITY {
        b
    } else if ma == 0 && mb == 0 {
        if na && nb {
            SIGN_MASK
        } else {
            ZERO
        }
    } else if ma == 0 {
        b
    } else if mb == 0 {
        a
    } else if ma >= mb {
        let r: u64 = sum_ordered(ma, na, mb, nb);
        proof {
            lemma_sum_of_ordered(a, b, r);
        }
        r
    } else {
        let r: u64 = sum_ordered(mb, nb, ma, na);
        proof {
            lemma_sum_of_ordered(a, b, r);
        }
        r
    }
}

/// The product of two finite numbers is what their exact product rounds
/// to, with the sign made of theirs.
pub proof fn lemma_product_is_rounded(a: u64, b: u64)
    requires
        is_finite(a),
        is_finite(b),
    ensures
        rounds_units(value(a) * value(b), pow2(1074) as int, product_spec(a, b)),
        is_negative(product_spec(a, b)) == (is_negative(a) != is_negative(b)),
{
    reveal(product_spec);
    let x: int = value(a);
    let y: int = value(b);
    lemma_absolute_is_not_negative(a);
    lemma_absolute_is_not_negative(b);
    lemma_pow2_pos(1074);
    assert((x <= 0 && y >= 0 ==> x * y <= 0) && (x >= 0 && y <= 0 ==> x * y <= 0) && (x >= 0 && y
        >= 0 ==> x * y >= 0) && (x <= 0 && y <= 0 ==> x * y >= 0)) by (nonlinear_arith);
    lemma_rounded_exists(x * y, pow2(1074) as int, is_negative(a) != is_negative(b));
}

/// The sum of two finite numbers is what their exact sum rounds to.
pub proof fn lemma_sum_is_rounded(a: u64, b: u64)
    requires
        is_finite(a),
        is_finite(b),
    ensures
        rounds_units(value(a) + value(b), 1, sum_spec(a, b)),
{
    reveal(sum_spec);
    let exact: int = value(a) + value(b);
    if exact == 0 {
        lemma_value_of_zero(sum_spec(a, b));
        lemma_rounds_exact(0, 1, sum_spec(a, b));
    } else {
        lemma_rounded_exists(exact, 1, exact < 0);
    }
}

/// A product with a zero is a zero.
proof fn lemma_product_with_zero(a: u64, b: u64, zero: u64)
    requires
        is_zero(a) || is_zero(b),
        is_zero(zero),
    ensures
        rounds_units(value(a) * value(b), pow2(1074) as int, zero),
{
    let den: int = pow2(1074) as int;
    lemma_pow2_pos(1074);
    assert(significand(zero) * pow2(shift(zero)) == 0) by (nonlinear_arith)
        requires
            significand(zero) == 0,
    ;
    if is_zero(a) {
        assert(significand(a) * pow2(shift(a)) == 0) by (nonlinear_arith)
            requires
                significand(a) == 0,
        ;
    } else {
        assert(significand(b) * pow2(shift(b)) == 0) by (nonlinear_arith)
            requires
                significand(b) == 0,
        ;
    }
    assert(value(a) * value(b) == 0) by (nonlinear_arith)
        requires
            value(a) == 0 || value(b) == 0,
    ;
    assert(den * value(zero) == 0) by (nonlinear_arith)
        requires
            value(zero) == 0,
    ;
    lemma_rounds_exact(0, den, zero);
}

/// The rounded product of the significands, scaled by both exponents, is
/// the rounded product of the absolute values.
proof fn lemma_product_rounds(a: u64, b: u64, mag: u64)
    requires
        rounds_scaled(significand(a) * significand(b), shift(a) + shift(b) - 1074, mag),
    ensures
        rounds_units(absolute(a) * absolute(b), pow2(1074) as int, mag),
{
    let sa: int = significand(a);
    let sb: int = significand(b);
    let ha: nat = shift(a);
    let hb: nat = shift(b);
    let pa: int = pow2(ha) as int;
    let pb: int = pow2(hb) as int;
    let both: int = pow2(ha + hb) as int;
    let e: int = ha + hb - 1074;
    let p: int = sa * sb;
    lemma_pow2_adds(ha, hb);
    lemma_pow2_pos(1074);
    lemma_pow2_pos(ha + hb);
    assert((sa * pa) * (sb * pb) == p * both) by (nonlinear_arith)
        requires
            both == pa * pb,
            p == sa * sb,
    ;
    if e >= 0 {
        let lift: int = pow2(e as nat) as int;
        lemma_pow2_adds(e as nat, 1074);
        lemma_rounds_scaled(p * lift, 1, pow2(1074) as int, mag);
        assert(pow2(1074) * (p * lift) == p * both) by (nonlinear_arith)
            requires
                both == lift * pow2(1074),
        ;
        assert(pow2(1074) * 1 == pow2(1074));
    } else {
        let den: int = pow2((-e) as nat) as int;
        lemma_pow2_adds(ha + hb, (-e) as nat);
        lemma_rounds_scaled(p, den, both, mag);
        assert(both * p == p * both) by (nonlinear_arith);
    }
}

/// The sums that need no rounding: those with a NaN, an infinity or a
/// zero.
proof fn lemma_sum_without_rounding(a: u64, b: u64)
    ensures
        is_nan(a) || is_nan(b) ==> sum_spec(a, b) == NAN,
        is_infinite(a) && is_infinite(b) ==> sum_spec(a, b) == if a == b {
            a
        } else {
            NAN
        },
        is_infinite(a) && is_finite(b) ==> sum_spec(a, b) == a,
        is_finite(a) && is_infinite(b) ==> sum_spec(a, b) == b,
        is_zero(a) && is_zero(b) ==> sum_spec(a, b) == if is_negative(a) && is_negative(b) {
            SIGN_MASK
        } else {
            ZERO
        },
        is_zero(a) && is_finite(b) && !is_zero(b) ==> sum_spec(a, b) == b,
        is_finite(a) && !is_zero(a) && is_zero(b) ==> sum_spec(a, b) == a,
{
    reveal(sum_spec);
    lemma_value_of_zero(a);
    lemma_value_of_zero(b);
    if is_zero(a) && is_finite(b) && !is_zero(b) {
        lemma_rounds_exact(value(b), 1, b);
        lemma_rounded_is(value(b), 1, value(b) < 0, b);
    }
    if is_finite(a) && !is_zero(a) && is_zero(b) {
        lemma_rounds_exact(value(a), 1, a);
        lemma_rounded_is(value(a), 1, value(a) < 0, a);
    }
}

/// The sum of two finite numbers that are not zero is the rounded sum of
/// their values.
proof fn lemma_sum_of_ordered(a: u64, b: u64, r: u64)
    requires
        is_finite(a) && !is_zero(a),
        is_finite(b) && !is_zero(b),
        value(a) + value(b) == 0 ==> r == ZERO,
        value(a) + value(b) != 0 ==> r == rounded(
            value(a) + value(b),
            1,
            value(a) + value(b) < 0,
        ),
    ensures
        r == sum_spec(a, b),
{
    reveal(sum_spec);
    lemma_value_of_zero(a);
    lemma_value_of_zero(b);
}

/// The value of the number with the given magnitude and sign.
spec fn signed(mag: u64, negative: bool) -> int {
    if negative {
        -absolute(mag)
    } else {
        absolute(mag)
    }
}

/// The sum of two finite numbers that are not zero, the one of the larger
/// magnitude first.
fn sum_ordered(big: u64, big_negative: bool, small: u64, small_negative: bool) -> (r: u64)
    requires
        0 < small <= big < INFINITY,
    ensures
        signed(big, big_negative) + signed(small, small_negative) == 0 ==> r == ZERO,
        signed(big, big_negative) + signed(small, small_negative) != 0 ==> r == rounded(
            signed(big, big_negative) + signed(small, small_negative),
            1,
            signed(big, big_negative) + signed(small, small_negative) < 0,
        ),
{
    let same: bool = big_negative == small_negative;
    proof {
        if small < big {
            lemma_absolute_increases(small, big);
        }
        lemma_absolute_increases(ZERO, small);
    }
    if !same && big == small {
        return ZERO;
    }
    let (sig_big, sh_big) = parts(big);
    let (sig_small, sh_small) = parts(small);
    let apart: i64 = sh_big - sh_small;
    let ghost exact: int = if same {
        absolute(big) + absolute(small)
    } else {
        absolute(big) - absolute(small)
    };
    let mag: u64 = if apart > 55 {
        proof {
            lemma_sum_keeps_the_larger(big, small, same);
        }
        big
    } else {
        let lift: u128 = power_of_two(apart as u32);
        proof {
            lemma_aligned(big, small, lift as int);
        }
        let wide: u128 = (sig_big as u128) * lift;
        let p: u128 = if same { wide + sig_small as u128 } else { wide - sig_small as u128 };
        round_scaled(p, sh_small)
    };
    assert(rounds_units(exact, 1, mag));
    let r: u64 = with_sign(mag, big_negative);
    proof {
        lemma_rounds_signed(exact, 1, mag, big_negative);
        let total: int = signed(big, big_negative) + signed(small, small_negative);
        lemma_rounded_is(total, 1, total < 0, r);
    }
    r
}

/// A number more than 55 binary places below another does not change it
/// in a rounded sum or difference.
proof fn lemma_sum_keeps_the_larger(big: u64, small: u64, same: bool)
    requires
        big < INFINITY,
        0 < small < INFINITY,
        shift(big) - shift(small) > 55,
    ensures
        rounds_units(
            if same {
                absolute(big) + absolute(small)
            } else {
                absolute(big) - absolute(small)
            },
            1,
            big,
        ),
{
    let w: int = absolute(small);
    let place: int = pow2(shift(big)) as int;
    let low_place: int = pow2(shift(small)) as int;
    lemma_absolute_increases(ZERO, small);
    lemma2_to64_rest();
    lemma_pow2_adds(shift(small), 56);
    lemma_pow2_grows(shift(small) + 56, shift(big));
    lemma_pow2_adds(53, 3);
    lemma_pow2_pos(shift(small));
    assert(8 * w < place) by (nonlinear_arith)
        requires
            w == significand(small) * low_place,
            0 <= significand(small) < 0x20_0000_0000_0000,
            0 < low_place,
            low_place * 0x100_0000_0000_0000 <= place,
    ;
    lemma_successor(big);
    if same {
        lemma_rounds_between(absolute(big) + w, 1, big, big);
    } else {
        let before: u64 = (big - 1) as u64;
        lemma_successor(before);
        let before_place: int = pow2(shift(before)) as int;
        if fraction_field(big) > 0 {
            assert(exponent_field(before) == exponent_field(big));
        } else {
            assert(exponent_field(before) == exponent_field(big) - 1);
            lemma_pow2_unfold(shift(big));
        }
        assert(place <= 2 * before_place);
        lemma_rounds_between(absolute(big) - w, 1, before, big);
    }
}

/// The larger number is its significand, lifted by the places between the
/// two, times the unit of the smaller; and lifted so it stays small enough
/// and above the significand of the smaller.
proof fn lemma_aligned(big: u64, small: u64, lift: int)
    requires
        0 < small <= big < INFINITY,
        0 <= shift(big) - shift(small) <= 55,
        lift == pow2((shift(big) - shift(small)) as nat),
    ensures
        absolute(big) + absolute(small) == (significand(big) * lift + significand(small)) * pow2(
            shift(small),
        ),
        absolute(big) - absolute(small) == (significand(big) * lift - significand(small)) * pow2(
            shift(small),
        ),
        significand(big) * lift + significand(small) < WIDE,
        significand(small) <= significand(big) * lift,
        small < big ==> significand(small) < significand(big) * lift,
        0 < significand(big) * lift + significand(small),
{
    let apart: nat = (shift(big) - shift(small)) as nat;
    let unit: int = pow2(shift(small)) as int;
    let sb: int = significand(big);
    let ss: int = significand(small);
    lemma_pow2_adds(apart, shift(small));
    lemma_pow2_pos(shift(small));
    lemma_pow2_pos(apart);
    lemma_pow2_grows(apart, 55);
    lemma2_to64_rest();
    lemma_wide();
    assert((sb * lift) * unit == sb * (lift * unit) && (sb * lift + ss) * unit == (sb * lift)
        * unit + ss * unit && (sb * lift - ss) * unit == (sb * lift) * unit - ss * unit)
        by (nonlinear_arith);
    assert(sb * lift + ss < WIDE && 0 <= sb * lift) by (nonlinear_arith)
        requires
            0 <= sb < 0x20_0000_0000_0000,
            0 <= ss < 0x20_0000_0000_0000,
            0 < lift <= 0x80_0000_0000_0000,
            WIDE == 0x4000_0000_0000_0000_0000_0000_0000,
    ;
    lemma_absolute_increases(ZERO, small);
    if small < big {
        lemma_absolute_increases(small, big);
    }
    assert(ss <= sb * lift && (ss * unit < (sb * lift) * unit ==> ss < sb * lift) && 0 < ss)
        by (nonlinear_arith)
        requires
            0 < ss * unit <= (sb * lift) * unit,
            0 < unit,
    ;
}

/// The significand of a magnitude, and the binary places it stands above
/// the smallest subnormal number.
fn parts(m: u64) -> (both: (u64, i64))
    requires
        m <= INFINITY,
    ensures
        both.0 == significand(m),
        both.1 == shift(m),
        0 <= both.0 < 2 * HIDDEN_BIT,
        0 <= both.1 <= 2046,
        m != 0 ==> both.0 > 0,
{
    let field: u64 = m / HIDDEN_BIT;
    let fraction: u64 = m % HIDDEN_BIT;
    if field == 0 {
        (fraction, 0)
    } else {
        (HIDDEN_BIT + fraction, (field - 1) as i64)
    }
}

/// The number of the given magnitude and sign.
fn with_sign(mag: u64, negative: bool) -> (bits: u64)
    requires
        mag <= INFINITY,
    ensures
        magnitude(bits) == mag,
        is_negative(bits) == negative,
        bits == if negative {
            negated(mag)
        } else {
            mag
        },
{
    if negative {
        mag + SIGN_MASK
    } else {
        mag
    }
}

/// What a magnitude is rounded from, its sign is rounded from with the
/// sign.
proof fn lemma_rounds_signed(num: int, den: int, mag: u64, negative: bool)
    requires
        mag <= INFINITY,
        rounds_units(num, den, mag),
    ensures
        rounds_units(
            if negative {
                -num
            } else {
                num
            },
            den,
            if negative {
                negated(mag)
            } else {
                mag
            },
        ),
{
    if negative {
        lemma_rounds_negated(num, den, mag);
    }
}

/// Two to the power 110: the integers that are rounded here stay below it.
const WIDE: u128 = 0x4000_0000_0000_0000_0000_0000_0000;

/// The integer `p` times two to the power `e`, counted in units of two to
/// the power -1074, rounds to the number `bits`.
spec fn rounds_scaled(p: int, e: int, bits: u64) -> bool {
    if e >= 0 {
        rounds_units(p * pow2(e as nat), 1, bits)
    } else {
        rounds_units(p, pow2((-e) as nat) as int, bits)
    }
}

/// Rounds a positive integer times a power of two to a number.
fn round_scaled(p: u128, e: i64) -> (bits: u64)
    requires
        0 < p < WIDE,
        -2000 <= e <= 5000,
    ensures
        bits <= INFINITY,
        rounds_scaled(p as int, e as int, bits),
{
    let digits: u32 = bit_length(p);
    let top: i64 = digits as i64 + e;
    let s: i64 = if top > 53 { top - 53 } else { 0 };
    if s >= 2046 {
        proof {
            lemma_overflows(p as int, e as int, digits as int);
        }
        return INFINITY;
    }
    let q: i64 = s - e;
    if q <= 0 {
        proof {
            lemma_pow2_adds((digits - 1) as nat, (-q) as nat);
            lemma_pow2_adds(digits as nat, (-q) as nat);
            lemma_pow2_grows((digits - q) as nat, 53);
            lemma_pow2_pos((-q) as nat);
            lemma2_to64_rest();
        }
        let scale: u128 = power_of_two((-q) as u32);
        proof {
            assert(p * scale < pow2(digits as nat) * scale) by (nonlinear_arith)
                requires
                    p < pow2(digits as nat),
                    0 < scale,
            ;
            assert(pow2((digits - 1) as nat) * scale <= p * scale) by (nonlinear_arith)
                requires
                    pow2((digits - 1) as nat) <= p,
                    0 < scale,
            ;
        }
        let m: u128 = p * scale;
        let bits: u64 = (s as u64) * HIDDEN_BIT + (m as u64);
        proof {
            lemma_pattern(s as int, m as int);
            lemma_pow2_adds((-q) as nat, s as nat);
            let unit: int = pow2(s as nat) as int;
            assert((p * scale) * unit == p * (scale * unit)) by (nonlinear_arith);
            assert(1 * absolute(bits) == p * pow2(e as nat));
            lemma_rounds_exact(p * pow2(e as nat), 1, bits);
        }
        return bits;
    }
    if q > 111 {
        proof {
            lemma_vanishes(p as int, e as int);
        }
        return ZERO;
    }
    let unit: u128 = power_of_two(q as u32);
    proof {
        lemma_pow2_pos(q as nat);
        lemma_pow2_unfold(q as nat);
        lemma_fundamental_div_mod(p as int, unit as int);
        lemma_mod_bound(p as int, unit as int);
    }
    let m0: u128 = p / unit;
    let rem: u128 = p % unit;
    let half: u128 = unit / 2;
    let up: bool = rem > half || (rem == half && m0 % 2 == 1);
    proof {
        lemma_quotient_is_significand(
            p as int,
            e as int,
            digits as int,
            s as int,
            unit as int,
            m0 as int,
            rem as int,
        );
        lemma_pattern(s as int, m0 as int);
    }
    let low: u64 = (s as u64) * HIDDEN_BIT + (m0 as u64);
    let bits: u64 = if up { low + 1 } else { low };
    proof {
        lemma_successor(low);
        lemma_next_significand(low);
        lemma_placed(p as int, e as int, s as int, unit as int, m0 as int, rem as int, low);
        if e >= 0 {
            let factor: int = pow2(e as nat) as int;
            lemma_pow2_pos(e as nat);
            assert((rem < unit - rem ==> rem * factor < (unit - rem) * factor) && (unit - rem
                < rem ==> (unit - rem) * factor < rem * factor)) by (nonlinear_arith)
                requires
                    0 < factor,
            ;
            lemma_rounds_between(p * pow2(e as nat), 1, low, bits);
        } else {
            lemma_pow2_pos((-e) as nat);
            lemma_rounds_between(p as int, pow2((-e) as nat) as int, low, bits);
        }
    }
    bits
}

/// The pattern with the significand `m` standing `s` binary places above
/// the smallest subnormal number.
proof fn lemma_pattern(s: int, m: int)
    requires
        0 <= s <= 2045,
        0 <= m < 2 * HIDDEN_BIT,
        s > 0 ==> HIDDEN_BIT <= m,
    ensures
        s * HIDDEN_BIT + m < INFINITY,
        significand((s * HIDDEN_BIT + m) as u64) == m,
        shift((s * HIDDEN_BIT + m) as u64) == s,
{
    let bits: u64 = (s * HIDDEN_BIT + m) as u64;
    if m < HIDDEN_BIT {
        assert(exponent_field(bits) == 0);
    } else {
        assert(bits == (s + 1) * HIDDEN_BIT + (m - HIDDEN_BIT));
        assert(exponent_field(bits) == s + 1);
        assert(fraction_field(bits) == m - HIDDEN_BIT);
    }
}

/// An integer with `digits` binary digits, times a power of two that lifts
/// it to two to the power 1024 or beyond, rounds to infinity.
proof fn lemma_overflows(p: int, e: int, digits: int)
    requires
        1 <= digits <= 110,
        pow2((digits - 1) as nat) <= p,
        digits + e - 53 >= 2046,
    ensures
        e >= 0,
        rounds_units(p * pow2(e as nat), 1, INFINITY),
{
    lemma_pow2_adds((digits - 1) as nat, e as nat);
    lemma_pow2_grows(2098, (digits - 1 + e) as nat);
    lemma_pow2_adds(52, 2046);
    lemma2_to64_rest();
    assert(significand(INFINITY) == HIDDEN_BIT);
    assert(shift(INFINITY) == 2046);
    assert(pow2((digits - 1) as nat) * pow2(e as nat) <= p * pow2(e as nat)) by (nonlinear_arith)
        requires
            pow2((digits - 1) as nat) <= p,
    ;
    lemma_rounds_to_infinity(p * pow2(e as nat), 1);
}

/// An integer below two to the power 110, divided by a power of two
/// beyond the 111th, rounds to zero.
proof fn lemma_vanishes(p: int, e: int)
    requires
        0 < p < WIDE,
        -e > 111,
    ensures
        rounds_units(p, pow2((-e) as nat) as int, ZERO),
{
    let den: int = pow2((-e) as nat) as int;
    lemma_wide();
    lemma_pow2_grows(111, (-e) as nat);
    lemma_pow2_unfold(111);
    lemma2_to64();
    let one: u64 = 1;
    assert(significand(ZERO) == 0);
    assert(significand(one) == 1);
    assert(shift(one) == 0);
    assert(significand(ZERO) * pow2(shift(ZERO)) == 0) by (nonlinear_arith)
        requires
            significand(ZERO) == 0,
    ;
    assert(significand(one) * pow2(shift(one)) == 1) by (nonlinear_arith)
        requires
            significand(one) == 1,
            pow2(shift(one)) == 1,
    ;
    assert(den * 0 == 0 && den * 1 == den) by (nonlinear_arith);
    lemma_rounds_between(p, den, ZERO, ZERO);
}

/// The quotient of the integer by the power of two that is left out is a
/// significand: below two to the power 53, and with its leading bit unless
/// the number is subnormal.
proof fn lemma_quotient_is_significand(
    p: int,
    e: int,
    digits: int,
    s: int,
    unit: int,
    m0: int,
    rem: int,
)
    requires
        1 <= digits <= 110,
        pow2((digits - 1) as nat) <= p < pow2(digits as nat),
        s == if digits + e > 53 {
            digits + e - 53
        } else {
            0
        },
        0 < s - e <= 111,
        unit == pow2((s - e) as nat),
        p == unit * m0 + rem,
        0 <= rem < unit,
    ensures
        0 <= m0 < 2 * HIDDEN_BIT,
        s > 0 ==> HIDDEN_BIT <= m0,
{
    let q: int = s - e;
    lemma2_to64_rest();
    lemma_pow2_pos(q as nat);
    lemma_pow2_pos((digits - 1) as nat);
    lemma_pow2_grows(digits as nat, (53 + q) as nat);
    lemma_pow2_adds(53, q as nat);
    let full: int = pow2(53) as int;
    assert(full * unit == (2 * HIDDEN_BIT) * unit) by (nonlinear_arith)
        requires
            full == 2 * HIDDEN_BIT,
    ;
    assert(m0 < 2 * HIDDEN_BIT && 0 <= m0) by (nonlinear_arith)
        requires
            p == unit * m0 + rem,
            0 <= rem < unit,
            0 < p < (2 * HIDDEN_BIT) * unit,
    ;
    if s > 0 {
        lemma_pow2_adds(52, q as nat);
        let lead: int = pow2(52) as int;
        assert(lead * unit == HIDDEN_BIT * unit) by (nonlinear_arith)
            requires
                lead == HIDDEN_BIT,
        ;
        assert(HIDDEN_BIT <= m0) by (nonlinear_arith)
            requires
                p == unit * m0 + rem,
                0 <= rem < unit,
                HIDDEN_BIT * unit <= p,
        ;
    }
}

/// Where the integer stands between the number below it and the next.
proof fn lemma_placed(p: int, e: int, s: int, unit: int, m0: int, rem: int, low: u64)
    requires
        0 <= s,
        0 < s - e,
        unit == pow2((s - e) as nat),
        p == unit * m0 + rem,
        0 <= rem < unit,
        low < INFINITY,
        significand(low) == m0,
        shift(low) == s,
    ensures
        e >= 0 ==> p * pow2(e as nat) - 1 * absolute(low) == rem * pow2(e as nat) && 1 * absolute(
            (low + 1) as u64,
        ) - p * pow2(e as nat) == (unit - rem) * pow2(e as nat),
        e < 0 ==> p - pow2((-e) as nat) * absolute(low) == rem && pow2((-e) as nat) * absolute(
            (low + 1) as u64,
        ) - p == unit - rem,
{
    let q: int = s - e;
    let place: int = pow2(s as nat) as int;
    lemma_successor(low);
    if e >= 0 {
        let factor: int = pow2(e as nat) as int;
        lemma_pow2_adds(q as nat, e as nat);
        assert(m0 * place == (p - rem) * factor && m0 * place + place == (p - rem + unit)
            * factor) by (nonlinear_arith)
            requires
                place == unit * factor,
                p == unit * m0 + rem,
        ;
        assert(p * factor - (p - rem) * factor == rem * factor && (p - rem + unit) * factor - p
            * factor == (unit - rem) * factor) by (nonlinear_arith);
    } else {
        let den: int = pow2((-e) as nat) as int;
        lemma_pow2_adds(s as nat, (-e) as nat);
        assert(den * (m0 * place) == p - rem && den * (m0 * place + place) == p - rem + unit)
            by (nonlinear_arith)
            requires
                unit == place * den,
                p == unit * m0 + rem,
        ;
    }
}

/// The number of binary digits of a positive integer.
fn bit_length(p: u128) -> (digits: u32)
    requires
        0 < p < WIDE,
    ensures
        1 <= digits <= 110,
        pow2((digits - 1) as nat) <= p < pow2(digits as nat),
{
    // `rest` is `p` without its last `cut` digits, and has at most `span`
    let mut rest: u128 = p;
    let mut cut: u32 = 0;
    let mut span: u32 = 128;
    proof {
        lemma2_to64();
        lemma2_to64_rest();
        lemma_pow2_adds(64, 64);
    }
    while span > 1
        invariant
            span == 128 || span == 64 || span == 32 || span == 16 || span == 8 || span == 4
                || span == 2 || span == 1,
            cut + span <= 128,
            1 <= rest < pow2(span as nat),
            pow2(cut as nat) * rest <= p < pow2(cut as nat) * (rest + 1),
        decreases span,
    {
        let half: u32 = span / 2;
        let unit: u128 = power_of_two(half);
        proof {
            lemma_pow2_adds(half as nat, half as nat);
            lemma_pow2_pos(half as nat);
        }
        if rest >= unit {
            proof {
                lemma_pow2_pos(cut as nat);
                lemma_cut(p as int, pow2(cut as nat) as int, rest as int, unit as int);
                lemma_pow2_adds(cut as nat, half as nat);
            }
            rest = rest / unit;
            cut = cut + half;
        }
        span = half;
    }
    proof {
        lemma2_to64();
        lemma_pow2_unfold((cut + 1) as nat);
        lemma_wide();
        let base: int = pow2(cut as nat) as int;
        assert(base * rest == base && base * (rest + 1) == 2 * base) by (nonlinear_arith)
            requires
                rest == 1,
        ;
        if cut >= 110 {
            lemma_pow2_grows(110, cut as nat);
        }
    }
    cut + 1
}

/// Cutting digits off: what holds of an integer and its quotient by a
/// power of two.
proof fn lemma_cut(p: int, base: int, rest: int, unit: int)
    requires
        0 < base,
        0 < unit <= rest < unit * unit,
        base * rest <= p < base * (rest + 1),
    ensures
        1 <= rest / unit < unit,
        (base * unit) * (rest / unit) <= p < (base * unit) * (rest / unit + 1),
{
    let most: int = rest / unit;
    let least: int = rest % unit;
    lemma_fundamental_div_mod(rest, unit);
    lemma_mod_bound(rest, unit);
    assert(1 <= most < unit) by (nonlinear_arith)
        requires
            rest == unit * most + least,
            0 <= least < unit,
            unit <= rest < unit * unit,
    ;
    assert((base * unit) * most <= base * rest && base * (rest + 1) <= (base * unit) * (most + 1))
        by (nonlinear_arith)
        requires
            rest == unit * most + least,
            0 <= least < unit,
            0 < base,
    ;
}

/// Two to the power `n`.
fn power_of_two(n: u32) -> (power: u128)
    requires
        n <= 120,
    ensures
        power == pow2(n as nat),
{
    proof {
        lemma2_to64_rest();
    }
    if n < 64 {
        let places: u64 = n as u64;
        proof {
            lemma_pow2_grows(n as nat, 63);
            lemma_u64_shl_is_mul(1, places);
        }
        (1u64 << places) as u128
    } else {
        let places: u64 = (n - 64) as u64;
        proof {
            lemma_pow2_grows(places as nat, 63);
            lemma_u64_shl_is_mul(1, places);
            lemma_pow2_adds(64, places as nat);
        }
        ((1u64 << places) as u128) * 0x1_0000_0000_0000_0000u128
    }
}

/// Two powers of two written out.
proof fn lemma_wide()
    ensures
        pow2(110) == WIDE,
        pow2(120) == 0x100_0000_0000_0000_0000_0000_0000_0000,
{
    lemma2_to64_rest();
    lemma_pow2_adds(55, 55);
    lemma_pow2_adds(60, 60);
}

/// Powers of two grow with their exponents.
proof fn lemma_pow2_grows(small: nat, large: nat)
    requires
        small <= large,
    ensures
        pow2(small) <= pow2(large),
{
    if small < large {
        lemma_pow2_strictly_increases(small, large);
    }
}

} // verus!
