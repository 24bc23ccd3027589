//! Freestanding compiler builtins written with integer operations only.
pub mod float_format;
pub mod int128;
pub mod mem;
pub mod rounding;
pub mod single;
pub mod soft_float;
