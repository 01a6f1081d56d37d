//! The rectangle that holds the fern.

use vstd::prelude::*;
use vstd::arithmetic::power2::*;
use crate::binary64::ZERO;
use crate::rounding::{
    lemma_rounds_decimal, lemma_rounds_to_negated, lemma_rounds_zero, rounds_to,
};

verus! {

/// -2.1820, the least abscissa.
pub const MIN_X: u64 = 0xC001_74BC_6A7E_F9DB;

/// 2.6558, the greatest abscissa.
pub const MAX_X: u64 = 0x4005_3F14_1205_BC02;

/// 0, the least ordinate.
pub const MIN_Y: u64 = ZERO;

/// 9.9983, the greatest ordinate.
pub const MAX_Y: u64 = 0x4023_FF21_2D77_3190;

/// The least abscissa of the fern.
pub fn min_x() -> (edge: u64)
    ensures
        edge == MIN_X,
{
    MIN_X
}

/// The greatest abscissa of the fern.
pub fn max_x() -> (edge: u64)
    ensures
        edge == MAX_X,
{
    MAX_X
}

/// The least ordinate of the fern.
pub fn min_y() -> (edge: u64)
    ensures
        edge == MIN_Y,
{
    MIN_Y
}

/// The greatest ordinate of the fern.
pub fn max_y() -> (edge: u64)
    ensures
        edge == MAX_Y,
{
    MAX_Y
}

/// The four edges at once: least and greatest abscissa, then least and
/// greatest ordinate.
pub fn bounds() -> (edges: (u64, u64, u64, u64))
    ensures
        edges == (MIN_X, MAX_X, MIN_Y, MAX_Y),
{
    (min_x(), max_x(), min_y(), max_y())
}

/// The edges are what -2.1820, 2.6558, 0 and 9.9983 round to.
pub proof fn lemma_bounds_are_rounded()
    ensures
        rounds_to(-21820, 10000, MIN_X),
        rounds_to(26558, 10000, MAX_X),
        rounds_to(0, 10000, MIN_Y),
        rounds_to(99983, 10000, MAX_Y),
{
    lemma2_to64_rest();
    lemma_rounds_decimal(21820, 10000, 0x4001_74BC_6A7E_F9DB);
    lemma_rounds_to_negated(21820, 10000, 0x4001_74BC_6A7E_F9DB);
    lemma_rounds_decimal(26558, 10000, MAX_X);
    lemma_rounds_zero(10000);
    lemma_rounds_decimal(99983, 10000, MAX_Y);
}

} // verus!
