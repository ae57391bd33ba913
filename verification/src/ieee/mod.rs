//! Binary floating point on bit patterns.
//!
//! The engine's numbers are IEEE 754 values, but the library never computes on
//! the machine's own: it holds each value by its bits and states, in exact integer
//! arithmetic, what an operation's result is.
pub mod accuracy;
pub mod bounds;
pub mod closeness;
pub mod constants;
pub mod convert;
pub mod datum;
pub mod decimal;
pub mod decimal_laws;
pub mod fixed;
pub mod format;
pub mod magnitude;
pub mod natural;
pub mod number;
pub mod round;
