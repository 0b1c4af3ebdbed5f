//! A polynomial-commitment argument that an elliptic-curve scalar
//! multiplication was carried out correctly.
//!
//! All polynomials, the execution trace and the traced curve live over the
//! scalar field of BN254, the order of the pairing groups G1 and G2, so that
//! a commitment `sum_i c_i x^i g` binds the polynomial's value at the
//! trapdoor `x`. The traced curve is `y^2 = x^3 + b` over that field.
pub mod field;
pub mod poly;
pub mod error;
pub mod interpolate;
pub mod curve;
pub mod trace;
pub mod compose;
pub mod group;
pub mod kzg;
pub mod records;
