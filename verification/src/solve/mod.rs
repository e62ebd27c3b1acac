//! Closed-form solvers for linear, quadratic and cubic equations with
//! real coefficients.

pub mod cubic;
pub mod linear;
pub mod quadratic;
pub mod radicals;
