//! Rounding to the nearest binary64 number, ties to the even significand:
//! what it means for a fraction to round to a pattern, and the handful of
//! ways in which it is shown.

use vstd::prelude::*;
use vstd::arithmetic::power2::*;
use crate::binary64::{
    absolute, exponent_field, fraction_field, is_nan, is_negative, lemma_absolute_increases,
    lemma_value_of_zero, magnitude, negated, shift, significand, value, HIDDEN_BIT, INFINITY, ZERO,
};

verus! {

/// How far the number lies from the fraction `num / den`, both counted in
/// units of two to the power -1074; the distance is given times `den`.
pub open spec fn gap(bits: u64, num: int, den: int) -> int {
    let across: int = den * value(bits) - num;
    if across < 0 {
        -across
    } else {
        across
    }
}

/// The number `other` is no better a choice than `bits` for the fraction:
/// it lies farther from it, or as far and then it is the same number or
/// `bits` has the even significand.
pub open spec fn no_better(num: int, den: int, bits: u64, other: u64) -> bool {
    let mine: int = gap(bits, num, den);
    let theirs: int = gap(other, num, den);
    mine < theirs || (mine == theirs && (value(other) == value(bits) || significand(bits) % 2
        == 0))
}

/// The fraction `num / den`, counted in units of two to the power -1074,
/// rounds to the number `bits`: no number is nearer, and of two that are
/// equally near `bits` is the even one. The infinities stand for two to
/// the power 1024 and its negative, so that a fraction too large for the
/// finite numbers rounds to an infinity. A fraction that rounds to zero
/// rounds to both zeros.
pub open spec fn rounds_units(num: int, den: int, bits: u64) -> bool {
    &&& !is_nan(bits)
    &&& forall|other: u64| !is_nan(other) ==> #[trigger] no_better(num, den, bits, other)
}

/// The number that the fraction `num / den`, counted in units of two to
/// the power -1074, rounds to. `negative` is the sign of the fraction: it
/// tells the two zeros apart where the fraction rounds to zero.
pub open spec fn rounded(num: int, den: int, negative: bool) -> u64 {
    choose|bits: u64| rounds_units(num, den, bits) && is_negative(bits) == negative
}

/// The fraction `num / den` rounds to the number `bits`.
pub open spec fn rounds_to(num: int, den: int, bits: u64) -> bool {
    rounds_units(num * pow2(1074), den, bits)
}

/// No absolute value is negative.
pub proof fn lemma_absolute_is_not_negative(bits: u64)
    ensures
        0 <= absolute(bits),
{
    lemma_pow2_pos(shift(bits));
    assert(0 <= significand(bits) * pow2(shift(bits))) by (nonlinear_arith)
        requires
            0 <= significand(bits),
            0 < pow2(shift(bits)),
    ;
}

/// The next pattern is the next number: it is larger by one unit of the
/// last place.
pub proof fn lemma_successor(low: u64)
    requires
        low < INFINITY,
    ensures
        absolute((low + 1) as u64) == absolute(low) + pow2(shift(low)),
{
    let next: u64 = (low + 1) as u64;
    let e: int = exponent_field(low);
    let m: int = significand(low);
    let p: int = pow2(shift(low)) as int;
    if fraction_field(low) < HIDDEN_BIT - 1 {
        assert(exponent_field(next) == e);
        assert(significand(next) == m + 1);
        assert((m + 1) * p == m * p + p) by (nonlinear_arith);
    } else {
        assert(exponent_field(next) == e + 1);
        assert(significand(next) == HIDDEN_BIT);
        if e == 0 {
            lemma2_to64();
            assert(m == HIDDEN_BIT - 1);
            assert((HIDDEN_BIT - 1) * 1 + 1 == HIDDEN_BIT * 1);
        } else {
            lemma_pow2_unfold(e as nat);
            let q: int = pow2(e as nat) as int;
            assert(m == 2 * HIDDEN_BIT - 1);
            assert(HIDDEN_BIT * q == (2 * HIDDEN_BIT - 1) * p + p) by (nonlinear_arith)
                requires
                    q == 2 * p,
            ;
        }
    }
}

/// The next pattern has the next significand, or the leading bit alone
/// where the exponent changes.
pub proof fn lemma_next_significand(low: u64)
    requires
        low < INFINITY,
    ensures
        significand((low + 1) as u64) == significand(low) + 1 || significand((low + 1) as u64)
            == HIDDEN_BIT,
        significand((low + 1) as u64) == HIDDEN_BIT ==> significand(low) % 2 == 1
            || significand(low) + 1 == HIDDEN_BIT,
{
    let next: u64 = (low + 1) as u64;
    if fraction_field(low) < HIDDEN_BIT - 1 {
        assert(exponent_field(next) == exponent_field(low));
    } else {
        assert(exponent_field(next) == exponent_field(low) + 1);
    }
}

/// A fraction between a number and the next rounds to the nearer of the
/// two, and midway between them to the even one.
pub proof fn lemma_rounds_between(num: int, den: int, low: u64, pick: u64)
    requires
        0 < den,
        low < INFINITY,
        den * absolute(low) <= num <= den * absolute((low + 1) as u64),
        pick == low || pick == low + 1,
        pick == low ==> num - den * absolute(low) < den * absolute((low + 1) as u64) - num || (num
            - den * absolute(low) == den * absolute((low + 1) as u64) - num && significand(low) % 2
            == 0),
        pick == low + 1 ==> den * absolute((low + 1) as u64) - num < num - den * absolute(low) || (
        num - den * absolute(low) == den * absolute((low + 1) as u64) - num && significand(
            (low + 1) as u64,
        ) % 2 == 0),
    ensures
        rounds_units(num, den, pick),
{
    let high: u64 = (low + 1) as u64;
    let below: int = num - den * absolute(low);
    let above: int = den * absolute(high) - num;
    lemma_absolute_increases(low, high);
    assert forall|other: u64| !is_nan(other) implies #[trigger] no_better(
        num,
        den,
        pick,
        other,
    ) by {
        let v: int = value(other);
        lemma_absolute_is_not_negative(other);
        if is_negative(other) || magnitude(other) <= low {
            if !is_negative(other) && magnitude(other) < low {
                lemma_absolute_increases(other, low);
            }
            assert(v <= absolute(low));
            assert(den * v <= den * absolute(low) && (den * v == den * absolute(low) ==> v
                == absolute(low))) by (nonlinear_arith)
                requires
                    v <= absolute(low),
                    0 < den,
            ;
            assert(gap(other, num, den) == num - den * v);
        } else {
            if high < magnitude(other) {
                lemma_absolute_increases(high, other);
            }
            assert(absolute(high) <= v);
            assert(den * absolute(high) <= den * v && (den * v == den * absolute(high) ==> v
                == absolute(high))) by (nonlinear_arith)
                requires
                    absolute(high) <= v,
                    0 < den,
            ;
            assert(gap(other, num, den) == den * v - num);
        }
    }
}

/// A fraction that is a number rounds to it.
pub proof fn lemma_rounds_exact(num: int, den: int, bits: u64)
    requires
        0 < den,
        !is_nan(bits),
        den * value(bits) == num,
    ensures
        rounds_units(num, den, bits),
{
    assert forall|other: u64| !is_nan(other) implies #[trigger] no_better(
        num,
        den,
        bits,
        other,
    ) by {
        let v: int = value(other);
        let w: int = value(bits);
        assert(den * v == den * w ==> v == w) by (nonlinear_arith)
            requires
                0 < den,
        ;
    }
}

/// A fraction that is not below two to the power 1024 rounds to infinity.
pub proof fn lemma_rounds_to_infinity(num: int, den: int)
    requires
        0 < den,
        den * absolute(INFINITY) <= num,
    ensures
        rounds_units(num, den, INFINITY),
{
    assert forall|other: u64| !is_nan(other) implies #[trigger] no_better(
        num,
        den,
        INFINITY,
        other,
    ) by {
        let v: int = value(other);
        let top: int = absolute(INFINITY);
        lemma_absolute_is_not_negative(other);
        if magnitude(other) < INFINITY {
            lemma_absolute_increases(other, INFINITY);
        }
        assert(den * v <= den * top && (den * v == den * top ==> v == top)) by (nonlinear_arith)
            requires
                v <= top,
                0 < den,
        ;
    }
}

/// A fraction and the number it rounds to change sign together.
pub proof fn lemma_rounds_negated(num: int, den: int, bits: u64)
    requires
        rounds_units(num, den, bits),
    ensures
        rounds_units(-num, den, negated(bits)),
{
    assert(den * (-value(bits)) == -(den * value(bits))) by (nonlinear_arith);
    assert forall|other: u64| !is_nan(other) implies #[trigger] no_better(
        -num,
        den,
        negated(bits),
        other,
    ) by {
        let mirror: u64 = negated(other);
        assert(den * (-value(mirror)) == -(den * value(mirror))) by (nonlinear_arith);
        assert(no_better(num, den, bits, mirror));
    }
}

/// A fraction rounds alike however it is written: numerator and
/// denominator may be multiplied by one positive factor.
pub proof fn lemma_rounds_scaled(num: int, den: int, factor: int, bits: u64)
    requires
        0 < factor,
        rounds_units(num, den, bits),
    ensures
        rounds_units(factor * num, factor * den, bits),
{
    assert forall|other: u64| !is_nan(other) implies #[trigger] no_better(
        factor * num,
        factor * den,
        bits,
        other,
    ) by {
        assert(no_better(num, den, bits, other));
        lemma_gap_scaled(num, den, factor, bits);
        lemma_gap_scaled(num, den, factor, other);
        let mine: int = gap(bits, num, den);
        let theirs: int = gap(other, num, den);
        assert((mine < theirs ==> factor * mine < factor * theirs) && (mine == theirs ==> factor
            * mine == factor * theirs)) by (nonlinear_arith)
            requires
                0 < factor,
        ;
    }
}

/// The distance grows with the factor by which a fraction is written
/// larger.
proof fn lemma_gap_scaled(num: int, den: int, factor: int, bits: u64)
    requires
        0 < factor,
    ensures
        gap(bits, factor * num, factor * den) == factor * gap(bits, num, den),
{
    let v: int = value(bits);
    let across: int = den * v - num;
    assert((factor * den) * v - factor * num == factor * across) by (nonlinear_arith)
        requires
            across == den * v - num,
    ;
    assert((across < 0 ==> factor * across < 0) && (across >= 0 ==> factor * across >= 0)
        && factor * (-across) == -(factor * across)) by (nonlinear_arith)
        requires
            0 < factor,
    ;
}

/// A positive normal number whose two neighbours share its exponent is
/// what a positive fraction rounds to from which it differs by less than
/// half a unit of its last place.
pub proof fn lemma_rounds_decimal(num: int, den: int, bits: u64)
    requires
        0 < num,
        0 < den,
        !is_negative(bits),
        1 <= exponent_field(bits) <= 1075,
        0 < fraction_field(bits) < HIDDEN_BIT - 1,
        -den < 2 * (den * significand(bits) - num * pow2((1075 - exponent_field(bits)) as nat))
            < den,
    ensures
        rounds_to(num, den, bits),
{
    let e: int = exponent_field(bits);
    let m: int = significand(bits);
    let p: int = pow2(shift(bits)) as int;
    let k: int = pow2((1075 - e) as nat) as int;
    let c: int = den * m - num * k;
    let target: int = num * pow2(1074);
    lemma_pow2_adds((e - 1) as nat, (1075 - e) as nat);
    lemma_pow2_pos(shift(bits));
    assert(target == (num * k) * p) by (nonlinear_arith)
        requires
            target == num * (p * k),
    ;
    assert(den * (m * p) - target == c * p) by (nonlinear_arith)
        requires
            target == (num * k) * p,
            c == den * m - num * k,
    ;
    let before: u64 = (bits - 1) as u64;
    assert(exponent_field(before) == e);
    assert(significand(before) == m - 1);
    lemma_successor(before);
    lemma_successor(bits);
    let after: u64 = (bits + 1) as u64;
    assert(den * absolute(before) == den * (m * p) - den * p) by (nonlinear_arith)
        requires
            absolute(before) == m * p - p,
    ;
    assert(den * absolute(after) == den * (m * p) + den * p) by (nonlinear_arith)
        requires
            absolute(after) == m * p + p,
    ;
    assert(-(den * p) < 2 * (c * p) < den * p) by (nonlinear_arith)
        requires
            -den < 2 * c < den,
            0 < p,
    ;
    if c < 0 {
        assert(c * p < 0) by (nonlinear_arith)
            requires
                c < 0,
                0 < p,
        ;
        lemma_rounds_between(target, den, bits, bits);
    } else {
        assert(c * p >= 0) by (nonlinear_arith)
            requires
                c >= 0,
                0 < p,
        ;
        lemma_rounds_between(target, den, before, bits);
    }
}

/// The negative of a fraction rounds to the negative of what the fraction
/// rounds to.
pub proof fn lemma_rounds_to_negated(num: int, den: int, bits: u64)
    requires
        rounds_to(num, den, bits),
    ensures
        rounds_to(-num, den, negated(bits)),
{
    assert((-num) * pow2(1074) == -(num * pow2(1074))) by (nonlinear_arith);
    lemma_rounds_negated(num * pow2(1074), den, bits);
}

/// Zero rounds to zero.
pub proof fn lemma_rounds_zero(den: int)
    requires
        0 < den,
    ensures
        rounds_to(0, den, ZERO),
{
    let unit: int = pow2(shift(ZERO)) as int;
    assert(significand(ZERO) * unit == 0) by (nonlinear_arith)
        requires
            significand(ZERO) == 0,
    ;
    assert(den * 0 == 0 && 0 * pow2(1074) == 0) by (nonlinear_arith);
    lemma_rounds_exact(0, den, ZERO);
}

/// A number between two that lie equally far from a fraction lies nearer
/// to it.
proof fn lemma_between_is_nearer(num: int, den: int, lower: u64, upper: u64, inner: u64)
    requires
        0 < den,
        value(lower) < value(inner) < value(upper),
        gap(lower, num, den) == gap(upper, num, den),
    ensures
        gap(inner, num, den) < gap(lower, num, den),
{
    let u: int = value(lower);
    let v: int = value(inner);
    let w: int = value(upper);
    assert(den * u < den * v < den * w) by (nonlinear_arith)
        requires
            u < v < w,
            0 < den,
    ;
}

/// Of two numbers next to each other, none of them negative, one has an
/// odd significand.
proof fn lemma_neighbours_differ(low: u64)
    requires
        low < INFINITY,
    ensures
        significand(low) % 2 != significand((low + 1) as u64) % 2,
{
    lemma_next_significand(low);
}

/// A fraction rounds to one value. Only where that value is zero are there
/// two numbers, the two zeros, that it rounds to.
pub proof fn lemma_rounds_to_one_value(num: int, den: int, bits: u64, other: u64)
    requires
        0 < den,
        rounds_units(num, den, bits),
        rounds_units(num, den, other),
    ensures
        value(bits) == value(other),
{
    if value(bits) < value(other) {
        lemma_rounds_in_order(num, den, bits, other);
    } else if value(other) < value(bits) {
        lemma_rounds_in_order(num, den, other, bits);
    }
}

/// A number of the sign of a fraction that the fraction rounds to is the
/// number that it rounds to: there is no other.
pub proof fn lemma_rounded_is(num: int, den: int, negative: bool, bits: u64)
    requires
        0 < den,
        rounds_units(num, den, bits),
        is_negative(bits) == negative,
    ensures
        rounded(num, den, negative) == bits,
{
    let chosen: u64 = rounded(num, den, negative);
    lemma_rounds_to_one_value(num, den, bits, chosen);
    if magnitude(bits) < magnitude(chosen) {
        lemma_absolute_increases(bits, chosen);
    }
    if magnitude(chosen) < magnitude(bits) {
        lemma_absolute_increases(chosen, bits);
    }
}

/// Every fraction rounds to a number, and that number has its sign.
pub proof fn lemma_rounded_exists(num: int, den: int, negative: bool)
    requires
        0 < den,
        negative ==> num <= 0,
        !negative ==> num >= 0,
    ensures
        rounds_units(num, den, rounded(num, den, negative)),
        is_negative(rounded(num, den, negative)) == negative,
{
    let size: int = if negative { -num } else { num };
    let found: u64 = lemma_rounds_somewhere(size, den);
    if negative {
        lemma_rounds_negated(size, den, found);
        let mirror: u64 = negated(found);
        assert(rounds_units(num, den, mirror) && is_negative(mirror) == negative);
    } else {
        assert(rounds_units(num, den, found) && is_negative(found) == negative);
    }
}

/// A number that a fraction which is not negative rounds to.
proof fn lemma_rounds_somewhere(num: int, den: int) -> (found: u64)
    requires
        0 < den,
        0 <= num,
    ensures
        found <= INFINITY,
        rounds_units(num, den, found),
{
    if den * absolute(INFINITY) <= num {
        lemma_rounds_to_infinity(num, den);
        INFINITY
    } else {
        let low: u64 = lemma_lies_between(num, den, INFINITY);
        let high: u64 = (low + 1) as u64;
        let below: int = num - den * absolute(low);
        let above: int = den * absolute(high) - num;
        lemma_neighbours_differ(low);
        let found: u64 = if below < above || (below == above && significand(low) % 2 == 0) {
            low
        } else {
            high
        };
        lemma_rounds_between(num, den, low, found);
        found
    }
}

/// A fraction that is not negative and below a number lies between some
/// smaller number and the next.
proof fn lemma_lies_between(num: int, den: int, limit: u64) -> (low: u64)
    requires
        0 < den,
        0 <= num < den * absolute(limit),
        limit <= INFINITY,
    ensures
        low < limit,
        den * absolute(low) <= num < den * absolute((low + 1) as u64),
    decreases limit,
{
    lemma_value_of_zero(ZERO);
    assert(den * 0 == 0) by (nonlinear_arith);
    let before: u64 = (limit - 1) as u64;
    if den * absolute(before) <= num {
        before
    } else {
        lemma_lies_between(num, den, before)
    }
}

/// Of two numbers that a fraction rounds to, the one is not below the
/// other.
proof fn lemma_rounds_in_order(num: int, den: int, lower: u64, upper: u64)
    requires
        0 < den,
        rounds_units(num, den, lower),
        rounds_units(num, den, upper),
        value(lower) <= value(upper),
    ensures
        value(lower) == value(upper),
{
    let ml: u64 = magnitude(lower);
    let mu: u64 = magnitude(upper);
    lemma_value_of_zero(lower);
    lemma_value_of_zero(upper);
    lemma_value_of_zero(ZERO);
    lemma_absolute_is_not_negative(lower);
    lemma_absolute_is_not_negative(upper);
    if value(lower) < value(upper) {
        assert(no_better(num, den, lower, upper));
        assert(no_better(num, den, upper, lower));
        if ml < mu {
            lemma_absolute_increases(lower, upper);
        }
        if mu < ml {
            lemma_absolute_increases(upper, lower);
        }
        if value(lower) < 0 && 0 < value(upper) {
            lemma_between_is_nearer(num, den, lower, upper, ZERO);
            assert(no_better(num, den, lower, ZERO));
        } else if 0 <= value(lower) {
            // from `low`, which is zero or positive, up to `upper`
            let low: u64 = ml;
            let next: u64 = (low + 1) as u64;
            assert(significand(low) == significand(lower));
            lemma_neighbours_differ(low);
            lemma_absolute_increases(low, next);
            if next < mu {
                lemma_absolute_increases(next, upper);
                lemma_between_is_nearer(num, den, lower, upper, next);
                assert(no_better(num, den, lower, next));
            } else {
                assert(significand(next) == significand(upper));
            }
        } else {
            // from `low`, which is zero or negative, down to `lower`
            let low: u64 = mu;
            let next: u64 = (low + 1) as u64;
            assert(significand(low) == significand(upper));
            lemma_neighbours_differ(low);
            lemma_absolute_increases(low, next);
            if next < ml {
                lemma_absolute_increases(next, lower);
                let inner: u64 = negated(next);
                lemma_between_is_nearer(num, den, lower, upper, inner);
                assert(no_better(num, den, lower, inner));
            } else {
                assert(significand(next) == significand(lower));
            }
        }
    }
}

} // verus!
