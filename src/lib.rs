//! Arithmetic over complex numbers, dense polynomials with complex
//! coefficients, and matrices of such polynomials, both as an ordinary
//! polynomial ring and in the cyclic quotient ring C[x]/(x^n - 1).
//!
//! Complex parts are Q16.16 fixed-point numbers. Every operation is stated
//! over sequences of coefficients and proved to meet its contract.

pub mod complex;
pub mod error;
pub mod laws;
pub mod matrix;
pub mod polynomial;
pub mod text;
