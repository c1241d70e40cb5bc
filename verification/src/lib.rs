//! Entropy coding fundamentals: symbol frequency analysis, optimal code
//! lengths, Kraft inequality checks, canonical prefix codes and a basic
//! binary arithmetic coder.

pub mod bits;
pub mod arithmetic;
pub mod arithmetic_laws;
pub mod kraft;
pub mod probability;
pub mod optimal;
pub mod length_limit;
