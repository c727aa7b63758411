//! A Whitted-style ray tracer over saturating fixed-point arithmetic.
//!
//! Every quantity is a [`util::fixed::Fixed`]: a signed binary fraction with
//! 32 fractional bits.  Every function of the crate is total; where a result
//! leaves the representable range it is clamped to the nearest bound.
pub mod image;
pub mod util;
