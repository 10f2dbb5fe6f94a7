//! Approximate versions of mathematical functions on single-precision
//! IEEE-754 values: the base-2 logarithm, the exponentials of base two and
//! base `e` and both less one, the arctangent of one and of two arguments,
//! and the hyperbolic tangent. Each is a handful of additions and
//! multiplications on the fields of its argument.
//!
//! A value is held as its 32-bit pattern, and the arithmetic is that of
//! IEEE-754 in integers, rounding to nearest with ties to even, so that
//! every result is defined bit for bit, and is the one that the same
//! expression gives in floating point. Every function is pure and total:
//! exceptional conditions are signalled through the IEEE special values
//! (NaN, the infinities, signed zero), and the functions whose name ends
//! in `_raw` leave out the handling of arguments outside their range.
//!
//! - [`float`] is the bit view: sign, exponent and significand of a
//!   pattern, and the classes of values.
//! - [`model`] says what a pattern stands for and what rounding to the
//!   nearest pattern is; [`round`], [`arith`], [`convert`] and [`order`]
//!   compute sums, products, quotients, conversions and comparisons, each
//!   proved to give what the model says; [`laws`] holds what follows for
//!   zeros, infinities, NaNs, signs and bounds.
//! - [`log`], [`exp`], [`atan`] and [`tanh`] are the approximations, each
//!   with the expression it evaluates and with what it does at the special
//!   values; [`exp_bounds`] proves that the exponential never leaves the
//!   patterns of the finite values between its limits.

pub use atan::{atan, atan2, atan_raw};
pub use exp::{exp, exp2, exp2_m1, exp2_m1_raw, exp2_raw, exp_m1, exp_m1_raw, exp_raw};
pub use float::{decompose, flip_sign_nonnan, recompose};
pub use log::{log2, log2_raw};
pub use tanh::{tanh, tanh_raw};

pub mod arith;
pub mod atan;
pub mod convert;
pub mod exp;
pub mod exp_bounds;
pub mod float;
pub mod laws;
pub mod log;
pub mod model;
pub mod order;
pub mod round;
pub mod tanh;
