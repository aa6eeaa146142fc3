//! Factorization of polynomials over the binary field GF(2^128).
//!
//! The crate has three layers: field arithmetic on single elements of
//! GF(2^128) (`f128`), ring arithmetic on polynomials over that field
//! (`poly`), and the three-stage Cantor-Zassenhaus factorization pipeline
//! (`factorize`): square-free part, distinct-degree grouping, and randomized
//! equal-degree splitting, composed by a top-level `factor` driver and a
//! `roots` convenience wrapper.

pub mod f128;
pub mod factorize;
pub mod poly;


