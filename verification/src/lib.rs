//! The Barnsley fern as an iterated function system.
//!
//! A point of the fern is made from the point before it by one of four
//! affine maps, picked by a random draw from the unit interval. The host
//! supplies the draws; the library picks the maps, applies them and writes
//! batches of chained points into the host's buffers.
//!
//! Coordinates, draws and constants are IEEE 754 binary64 numbers, held as
//! their 64-bit patterns. They are compared, multiplied and added with
//! integers alone, each product and sum rounded to the nearest number with
//! ties to the even significand, as IEEE 754 has it.

pub mod arithmetic;
pub mod batch;
pub mod binary64;
pub mod bounds;
pub mod rounding;
pub mod step;
pub mod transform;

pub use batch::{create_array, points, BatchError};
pub use bounds::{bounds, max_x, max_y, min_x, min_y};
pub use step::{step, Point};
pub use transform::Transform;
