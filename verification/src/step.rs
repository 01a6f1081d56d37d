//! One step of the fern: a point and a map give the next point.

use vstd::prelude::*;
use vstd::arithmetic::power2::pow2;
use crate::arithmetic::{lemma_product_is_rounded, product, product_spec, sum, sum_spec};
use crate::binary64::{is_finite, value, ZERO};
use crate::rounding::rounds_units;
use crate::transform::{Coefficients, Transform};

verus! {

/// A point of the plane: two binary64 coordinates.
#[derive(Clone, Copy, PartialEq, Eq, Debug, Structural)]
pub struct Point {
    pub x: u64,
    pub y: u64,
}

/// The image of a point under a map. The entries of the table that are
/// zero take no part: the stem sends `(x, y)` to zero and `d * y`, and a
/// leaflet sends it to `a * x + b * y` and `(c * x + d * y) + f`, each
/// product and each sum rounded, the products taken first and the sums
/// from the left.
pub open spec fn image(map: Transform, from: Point) -> Point {
    let row: Coefficients = map.coefficients_spec();
    match map {
        Transform::Stem => Point { x: ZERO, y: product_spec(row.d, from.y) },
        _ => Point {
            x: sum_spec(product_spec(row.a, from.x), product_spec(row.b, from.y)),
            y: sum_spec(
                sum_spec(product_spec(row.c, from.x), product_spec(row.d, from.y)),
                row.f,
            ),
        },
    }
}

impl Transform {
    /// Applies the map to a point.
    pub fn apply(self, from: Point) -> (to: Point)
        ensures
            to == image(self, from),
    {
        let row: Coefficients = self.coefficients();
        match self {
            Transform::Stem => Point { x: ZERO, y: product(row.d, from.y) },
            _ => Point {
                x: sum(product(row.a, from.x), product(row.b, from.y)),
                y: sum(sum(product(row.c, from.x), product(row.d, from.y)), row.f),
            },
        }
    }
}

/// The point that follows `from` when the draw is `draw`: its image under
/// the map that the draw selects.
pub open spec fn step_spec(from: Point, draw: u64) -> Point {
    image(Transform::select_spec(draw), from)
}

/// One step of the fern: the point that follows `from` when the draw is
/// `draw`.
#[verifier::when_used_as_spec(step_spec)]
pub fn step(from: Point, draw: u64) -> (to: Point)
    ensures
        to == step_spec(from, draw),
{
    Transform::select(draw).apply(from)
}

/// The stem sends every point to zero and `0.16 * y`, whatever its `x` is:
/// the second coordinate is what the exact product of the entry `d` of the
/// table and a finite `y` rounds to.
pub proof fn lemma_stem_ignores_x(x: u64, other_x: u64, y: u64)
    ensures
        image(Transform::Stem, Point { x, y }) == image(Transform::Stem, Point { x: other_x, y }),
        image(Transform::Stem, Point { x, y }).x == ZERO,
        image(Transform::Stem, Point { x, y }).y == product_spec(
            Transform::Stem.coefficients_spec().d,
            y,
        ),
        is_finite(y) ==> rounds_units(
            value(Transform::Stem.coefficients_spec().d) * value(y),
            pow2(1074) as int,
            image(Transform::Stem, Point { x, y }).y,
        ),
{
    if is_finite(y) {
        lemma_product_is_rounded(Transform::Stem.coefficients_spec().d, y);
    }
}

} // verus!
