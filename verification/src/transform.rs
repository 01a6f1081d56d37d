//! The four affine maps of the fern, and the rule that picks one of them
//! for a draw.

use vstd::prelude::*;
use vstd::arithmetic::power2::*;
use crate::binary64::{lemma_lt_by_pattern, less_than, lt, ZERO};
use crate::rounding::{
    lemma_rounds_decimal, lemma_rounds_to_negated, lemma_rounds_zero, rounds_to,
};

verus! {

/// One of the four maps, in the order of their shares of the unit interval.
#[derive(Clone, Copy, PartialEq, Eq, Debug, Structural)]
pub enum Transform {
    Stem,
    LargeLeaflet,
    LeftLeaflet,
    RightLeaflet,
}

/// 0.01: the draws below it select the stem.
pub const STEM_LIMIT: u64 = 0x3F84_7AE1_47AE_147B;

/// 0.86: the draws below it that do not select the stem select the large
/// leaflet.
pub const LARGE_LEAFLET_LIMIT: u64 = 0x3FEB_851E_B851_EB85;

/// 0.93: the draws below it that select neither of the former select the
/// left leaflet, and all others the right leaflet.
pub const LEFT_LEAFLET_LIMIT: u64 = 0x3FED_C28F_5C28_F5C3;

/// The six constants of a map that sends `(x, y)` to
/// `(a x + b y + e, c x + d y + f)`, as binary64 patterns.
#[derive(Clone, Copy, PartialEq, Eq, Debug, Structural)]
pub struct Coefficients {
    pub a: u64,
    pub b: u64,
    pub c: u64,
    pub d: u64,
    pub e: u64,
    pub f: u64,
}

/// Six constants written as counts of hundredths.
pub struct Hundredths {
    pub a: int,
    pub b: int,
    pub c: int,
    pub d: int,
    pub e: int,
    pub f: int,
}

impl Transform {
    /// The map that a draw selects. Each share is closed below and open
    /// above: a draw equal to a limit falls to the later map. A NaN is
    /// below no limit and selects the last map.
    pub open spec fn select_spec(draw: u64) -> Transform {
        if lt(draw, STEM_LIMIT) {
            Transform::Stem
        } else if lt(draw, LARGE_LEAFLET_LIMIT) {
            Transform::LargeLeaflet
        } else if lt(draw, LEFT_LEAFLET_LIMIT) {
            Transform::LeftLeaflet
        } else {
            Transform::RightLeaflet
        }
    }

    /// Picks the map for one draw from the unit interval.
    pub fn select(draw: u64) -> (chosen: Transform)
        ensures
            chosen == Self::select_spec(draw),
    {
        if less_than(draw, STEM_LIMIT) {
            Transform::Stem
        } else if less_than(draw, LARGE_LEAFLET_LIMIT) {
            Transform::LargeLeaflet
        } else if less_than(draw, LEFT_LEAFLET_LIMIT) {
            Transform::LeftLeaflet
        } else {
            Transform::RightLeaflet
        }
    }

    /// The table of the fern, in hundredths.
    pub open spec fn hundredths(self) -> Hundredths {
        match self {
            Transform::Stem => Hundredths { a: 0, b: 0, c: 0, d: 16, e: 0, f: 0 },
            Transform::LargeLeaflet => Hundredths { a: 85, b: 4, c: -4, d: 85, e: 0, f: 160 },
            Transform::LeftLeaflet => Hundredths { a: 20, b: -26, c: 23, d: 22, e: 0, f: 160 },
            Transform::RightLeaflet => Hundredths { a: -15, b: 28, c: 26, d: 24, e: 0, f: 44 },
        }
    }

    pub open spec fn coefficients_spec(self) -> Coefficients {
        match self {
            Transform::Stem => Coefficients {
                a: ZERO,
                b: ZERO,
                c: ZERO,
                d: 0x3FC4_7AE1_47AE_147B,
                e: ZERO,
                f: ZERO,
            },
            Transform::LargeLeaflet => Coefficients {
                a: 0x3FEB_3333_3333_3333,
                b: 0x3FA4_7AE1_47AE_147B,
                c: 0xBFA4_7AE1_47AE_147B,
                d: 0x3FEB_3333_3333_3333,
                e: ZERO,
                f: 0x3FF9_9999_9999_999A,
            },
            Transform::LeftLeaflet => Coefficients {
                a: 0x3FC9_9999_9999_999A,
                b: 0xBFD0_A3D7_0A3D_70A4,
                c: 0x3FCD_70A3_D70A_3D71,
                d: 0x3FCC_28F5_C28F_5C29,
                e: ZERO,
                f: 0x3FF9_9999_9999_999A,
            },
            Transform::RightLeaflet => Coefficients {
                a: 0xBFC3_3333_3333_3333,
                b: 0x3FD1_EB85_1EB8_51EC,
                c: 0x3FD0_A3D7_0A3D_70A4,
                d: 0x3FCE_B851_EB85_1EB8,
                e: ZERO,
                f: 0x3FDC_28F5_C28F_5C29,
            },
        }
    }

    /// The six constants of the map.
    #[verifier::when_used_as_spec(coefficients_spec)]
    pub fn coefficients(self) -> (row: Coefficients)
        ensures
            row == self.coefficients_spec(),
    {
        match self {
            Transform::Stem => Coefficients {
                a: ZERO,
                b: ZERO,
                c: ZERO,
                d: 0x3FC4_7AE1_47AE_147B,
                e: ZERO,
                f: ZERO,
            },
            Transform::LargeLeaflet => Coefficients {
                a: 0x3FEB_3333_3333_3333,
                b: 0x3FA4_7AE1_47AE_147B,
                c: 0xBFA4_7AE1_47AE_147B,
                d: 0x3FEB_3333_3333_3333,
                e: ZERO,
                f: 0x3FF9_9999_9999_999A,
            },
            Transform::LeftLeaflet => Coefficients {
                a: 0x3FC9_9999_9999_999A,
                b: 0xBFD0_A3D7_0A3D_70A4,
                c: 0x3FCD_70A3_D70A_3D71,
                d: 0x3FCC_28F5_C28F_5C29,
                e: ZERO,
                f: 0x3FF9_9999_9999_999A,
            },
            Transform::RightLeaflet => Coefficients {
                a: 0xBFC3_3333_3333_3333,
                b: 0x3FD1_EB85_1EB8_51EC,
                c: 0x3FD0_A3D7_0A3D_70A4,
                d: 0x3FCE_B851_EB85_1EB8,
                e: ZERO,
                f: 0x3FDC_28F5_C28F_5C29,
            },
        }
    }
}

/// 1: the draws of the unit interval are the patterns below it.
pub const ONE: u64 = 0x3FF0_0000_0000_0000;

/// For a draw of the unit interval, zero included and one excluded, the
/// limits are compared as plain integers.
pub proof fn lemma_select_in_unit_interval(draw: u64)
    requires
        draw < ONE,
    ensures
        Transform::select_spec(draw) == if draw < STEM_LIMIT {
            Transform::Stem
        } else if draw < LARGE_LEAFLET_LIMIT {
            Transform::LargeLeaflet
        } else if draw < LEFT_LEAFLET_LIMIT {
            Transform::LeftLeaflet
        } else {
            Transform::RightLeaflet
        },
{
    lemma_lt_by_pattern(draw, STEM_LIMIT);
    lemma_lt_by_pattern(draw, LARGE_LEAFLET_LIMIT);
    lemma_lt_by_pattern(draw, LEFT_LEAFLET_LIMIT);
}

/// Each constant of the row is what its count of hundredths rounds to.
pub open spec fn rounds_from(row: Coefficients, table: Hundredths) -> bool {
    &&& rounds_to(table.a, 100, row.a)
    &&& rounds_to(table.b, 100, row.b)
    &&& rounds_to(table.c, 100, row.c)
    &&& rounds_to(table.d, 100, row.d)
    &&& rounds_to(table.e, 100, row.e)
    &&& rounds_to(table.f, 100, row.f)
}

/// The limits of the shares are what 0.01, 0.86 and 0.93 round to.
pub proof fn lemma_limits_are_rounded()
    ensures
        rounds_to(1, 100, STEM_LIMIT),
        rounds_to(86, 100, LARGE_LEAFLET_LIMIT),
        rounds_to(93, 100, LEFT_LEAFLET_LIMIT),
{
    lemma2_to64_rest();
    lemma_rounds_decimal(1, 100, STEM_LIMIT);
    lemma_rounds_decimal(86, 100, LARGE_LEAFLET_LIMIT);
    lemma_rounds_decimal(93, 100, LEFT_LEAFLET_LIMIT);
}

/// The constants of every map are what the entries of the fern's table
/// round to.
pub proof fn lemma_coefficients_are_rounded(map: Transform)
    ensures
        rounds_from(map.coefficients_spec(), map.hundredths()),
{
    let row: Coefficients = map.coefficients_spec();
    lemma2_to64_rest();
    lemma_rounds_zero(100);
    match map {
        Transform::Stem => {
            lemma_rounds_decimal(16, 100, row.d);
        },
        Transform::LargeLeaflet => {
            lemma_rounds_decimal(85, 100, row.a);
            lemma_rounds_decimal(4, 100, row.b);
            lemma_rounds_to_negated(4, 100, row.b);
            lemma_rounds_decimal(160, 100, row.f);
        },
        Transform::LeftLeaflet => {
            lemma_rounds_decimal(20, 100, row.a);
            lemma_rounds_decimal(26, 100, 0x3FD0_A3D7_0A3D_70A4);
            lemma_rounds_to_negated(26, 100, 0x3FD0_A3D7_0A3D_70A4);
            lemma_rounds_decimal(23, 100, row.c);
            lemma_rounds_decimal(22, 100, row.d);
            lemma_rounds_decimal(160, 100, row.f);
        },
        Transform::RightLeaflet => {
            lemma_rounds_decimal(15, 100, 0x3FC3_3333_3333_3333);
            lemma_rounds_to_negated(15, 100, 0x3FC3_3333_3333_3333);
            lemma_rounds_decimal(28, 100, row.b);
            lemma_rounds_decimal(26, 100, row.c);
            lemma_rounds_decimal(24, 100, row.d);
            lemma_rounds_decimal(44, 100, row.f);
        },
    }
}

} // verus!
