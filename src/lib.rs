//! Sparse GF(2) linear algebra, classical and CSS quantum codes, Pauli
//! operators, a bit-flip decoder and noise channels driven by a splittable
//! random number generator.

pub mod css_code;
pub mod decoder;
pub mod error;
pub mod kernel;
pub mod linear_code;
pub mod matrix;
pub mod noise;
pub mod pauli;
pub mod rng;
pub mod vector;
