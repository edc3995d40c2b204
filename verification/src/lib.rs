//! Point arithmetic on the curves `y^2 = x^3 + b` over a prime field.

pub mod number_theory;
pub mod field_arith;
pub mod curve_spec;
pub mod curve_laws;
pub mod elliptic_curve;
