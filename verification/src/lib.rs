//! A small linear-algebra library over exact scalars.
//!
//! Vectors and matrices are generic over the `Scalar` capability trait,
//! whose operations carry exact spec-level contracts.  Two scalar types
//! are provided: the exact rational `Rat` and the complex `Complex` built
//! from two rationals.  The matrix component centres on Gauss-Jordan
//! elimination (`row_echelon`) and the operations built on it: `inverse`,
//! `rank`, `determinant`, `row_space` and `col_space`, each specified
//! against a functional spec-level version of the same algorithm.

pub mod arith;
pub mod complex;
pub mod matrix;
pub mod rat;
pub mod scalar;
pub mod vector;

pub use complex::Complex;
pub use matrix::Matrix;
pub use rat::Rat;
pub use scalar::{lerp, Lerp, MulAdd, Scalar, Sqrt};
pub use vector::{angle_cos, cross_product, linear_combination, Dot, Vector};
