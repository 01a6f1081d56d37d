//! IEEE 754 binary64 numbers as 64-bit patterns: what a pattern is worth,
//! how two patterns compare, and which pattern lies nearest to a fraction.

use vstd::prelude::*;
use vstd::arithmetic::power2::*;

verus! {

/// The sign bit.
pub const SIGN_MASK: u64 = 0x8000_0000_0000_0000;

/// Positive infinity. A pattern whose magnitude is larger is a NaN.
pub const INFINITY: u64 = 0x7FF0_0000_0000_0000;

/// Two to the power 52: one step of the exponent field, and the leading
/// bit that a normal number's significand has without storing it.
pub const HIDDEN_BIT: u64 = 0x0010_0000_0000_0000;

/// Positive zero.
pub const ZERO: u64 = 0;

/// The NaN that an operation without a result gives.
pub const NAN: u64 = 0x7FF8_0000_0000_0000;

/// The pattern without its sign bit.
pub open spec fn magnitude(bits: u64) -> u64 {
    if bits >= SIGN_MASK {
        (bits - SIGN_MASK) as u64
    } else {
        bits
    }
}

/// The sign bit is set. This holds of negative zero and of half the NaNs too.
pub open spec fn is_negative(bits: u64) -> bool {
    bits >= SIGN_MASK
}

pub open spec fn is_nan(bits: u64) -> bool {
    magnitude(bits) > INFINITY
}

/// One of the two infinities.
pub open spec fn is_infinite(bits: u64) -> bool {
    magnitude(bits) == INFINITY
}

/// One of the two zeros.
pub open spec fn is_zero(bits: u64) -> bool {
    magnitude(bits) == 0
}

/// Neither an infinity nor a NaN.
pub open spec fn is_finite(bits: u64) -> bool {
    magnitude(bits) < INFINITY
}

/// The eleven exponent bits, from 0 to 2047.
pub open spec fn exponent_field(bits: u64) -> int {
    magnitude(bits) as int / HIDDEN_BIT as int
}

/// The 52 fraction bits.
pub open spec fn fraction_field(bits: u64) -> int {
    magnitude(bits) as int % HIDDEN_BIT as int
}

/// The significand as an integer: the fraction bits, below the hidden bit
/// unless the exponent field is zero (a zero or a subnormal number).
pub open spec fn significand(bits: u64) -> int {
    if exponent_field(bits) == 0 {
        fraction_field(bits)
    } else {
        HIDDEN_BIT + fraction_field(bits)
    }
}

/// How many binary places the significand stands above the smallest
/// subnormal number, two to the power -1074.
pub open spec fn shift(bits: u64) -> nat {
    if exponent_field(bits) == 0 {
        0
    } else {
        (exponent_field(bits) - 1) as nat
    }
}

/// The absolute value, counted in units of two to the power -1074. An
/// infinity counts as two to the power 1024, the value that the next
/// exponent would begin with.
pub open spec fn absolute(bits: u64) -> int {
    significand(bits) * pow2(shift(bits))
}

/// The value of a pattern that is no NaN, counted in units of two to the
/// power -1074.
pub open spec fn value(bits: u64) -> int {
    if is_negative(bits) {
        -absolute(bits)
    } else {
        absolute(bits)
    }
}

/// The order of the numbers: a NaN is below nothing and nothing is below
/// it, and negative zero is not below positive zero.
pub open spec fn lt(a: u64, b: u64) -> bool {
    !is_nan(a) && !is_nan(b) && value(a) < value(b)
}

/// Among patterns of one sign, the larger magnitude is the larger absolute
/// value.
pub proof fn lemma_absolute_increases(a: u64, b: u64)
    requires
        magnitude(a) < magnitude(b),
    ensures
        0 <= absolute(a) < absolute(b),
{
    let ea: int = exponent_field(a);
    let eb: int = exponent_field(b);
    let fa: int = fraction_field(a);
    let fb: int = fraction_field(b);
    let pa: int = pow2(shift(a)) as int;
    let pb: int = pow2(shift(b)) as int;
    lemma_pow2_pos(shift(a));
    lemma_pow2_pos(shift(b));
    assert(0 <= significand(a) * pa) by (nonlinear_arith)
        requires
            0 <= significand(a),
            0 < pa,
    ;
    if ea == eb {
        assert(significand(a) * pa < significand(b) * pa) by (nonlinear_arith)
            requires
                significand(a) < significand(b),
                0 < pa,
        ;
    } else if ea == 0 {
        lemma2_to64();
        assert(HIDDEN_BIT * 1 <= significand(b) * pb) by (nonlinear_arith)
            requires
                HIDDEN_BIT <= significand(b),
                1 <= pb,
        ;
    } else {
        lemma_pow2_unfold(ea as nat);
        if ea < eb - 1 {
            lemma_pow2_strictly_increases(ea as nat, (eb - 1) as nat);
        }
        assert(significand(a) * pa < significand(b) * pb) by (nonlinear_arith)
            requires
                0 <= significand(a) < 2 * HIDDEN_BIT,
                HIDDEN_BIT <= significand(b),
                0 < pa,
                2 * pa <= pb,
        ;
    }
}

/// The same number with the other sign.
pub open spec fn negated(bits: u64) -> u64 {
    if bits >= SIGN_MASK {
        (bits - SIGN_MASK) as u64
    } else {
        (bits + SIGN_MASK) as u64
    }
}

/// The zeros have the value zero, and no other numbers.
pub proof fn lemma_value_of_zero(bits: u64)
    ensures
        is_zero(bits) <==> value(bits) == 0,
{
    if is_zero(bits) {
        assert(significand(bits) * pow2(shift(bits)) == 0) by (nonlinear_arith)
            requires
                significand(bits) == 0,
        ;
    } else {
        lemma_absolute_increases(ZERO, bits);
    }
}

/// The order of the numbers, read off the patterns: among patterns without
/// the sign bit the smaller pattern is the smaller number, among patterns
/// with it the larger one is, and one with it is below one without it
/// unless both are zeros.
pub open spec fn lt_by_pattern(a: u64, b: u64) -> bool {
    &&& !is_nan(a)
    &&& !is_nan(b)
    &&& if is_negative(a) {
        if is_negative(b) {
            magnitude(b) < magnitude(a)
        } else {
            magnitude(a) != 0 || magnitude(b) != 0
        }
    } else {
        !is_negative(b) && magnitude(a) < magnitude(b)
    }
}

/// The order of the values is the order read off the patterns.
pub proof fn lemma_lt_by_pattern(a: u64, b: u64)
    ensures
        lt(a, b) == lt_by_pattern(a, b),
{
    if magnitude(a) < magnitude(b) {
        lemma_absolute_increases(a, b);
    }
    if magnitude(b) < magnitude(a) {
        lemma_absolute_increases(b, a);
    }
    if magnitude(a) != 0 {
        lemma_absolute_increases(ZERO, a);
    }
    if magnitude(b) != 0 {
        lemma_absolute_increases(ZERO, b);
    }
    let unit: int = pow2(shift(ZERO)) as int;
    assert(significand(ZERO) * unit == 0) by (nonlinear_arith)
        requires
            significand(ZERO) == 0,
    ;
}

/// Is the number `a` below the number `b`?
pub fn less_than(a: u64, b: u64) -> (below: bool)
    ensures
        below == lt(a, b),
{
    let ma: u64 = if a >= SIGN_MASK { a - SIGN_MASK } else { a };
    let mb: u64 = if b >= SIGN_MASK { b - SIGN_MASK } else { b };
    proof {
        lemma_lt_by_pattern(a, b);
    }
    if ma > INFINITY || mb > INFINITY {
        false
    } else if a >= SIGN_MASK {
        if b >= SIGN_MASK {
            mb < ma
        } else {
            ma != 0 || mb != 0
        }
    } else {
        b < SIGN_MASK && ma < mb
    }
}

} // verus!
