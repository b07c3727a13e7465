//! Slope stability by Bishop's simplified method of slices, in exact
//! integer arithmetic.
//!
//! Coordinates, radii and widths are integers in one unit of length; unit
//! weights, cohesions and pore pressures are integers in units consistent
//! with it (kN/m³ and kPa for metres). Sines, cosines, friction tangents and
//! factors of safety are fixed point, in thousandths.
//!
//! - `geometry`: points, segments, circles, and where a line meets a circle,
//!   each crossing held exactly as a root of a quadratic.
//! - `section`: layers and the cross-section, and their crossings with a
//!   circle.
//! - `slices`: the cut of the sliding mass above a trial circle into slices.
//! - `bishop`: the fixed-point iteration of Bishop's simplified equation.
//! - `search`: one trial circle end to end, and the search for the circle
//!   with the least factor of safety.

pub mod geometry;
pub mod section;
pub mod bishop;
pub mod slices;
pub mod search;
