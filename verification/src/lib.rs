//! Polynomial evaluation and closed-form real root classification in the
//! style of GSL's polynomial routines, over an exact scalar arithmetic.
//!
//! A [`Polynomial`] owns a coefficient sequence over [`Scalar`], a complex
//! number whose real and imaginary parts are exact fractions of machine
//! integers (with explicit markers for infinite and invalid values).  On
//! that arithmetic, Horner evaluation, simultaneous derivative evaluation,
//! trimming and monic normalization are exact, and the discriminant
//! case-splits of the quadratic and cubic solvers are decided without
//! rounding.  Roots that are rational are returned as values; roots that
//! are irrational are returned as the exact invariants of their closed-form
//! branch, for a numeric caller to finish.

mod error;
mod laws;
mod polynomial;
mod scalar;
mod solve;
mod utils;

pub use error::PolyError;
pub use laws::lemma_double_root_solves;
pub use laws::lemma_eval_matches_power_sum;
pub use laws::lemma_linear_root_solves;
pub use laws::lemma_quadratic_vieta_sum;
pub use laws::lemma_triple_root_round_trip;
pub use laws::power_sum;
pub use laws::rat_wf;
pub use laws::rats_wf;
pub use laws::re_vals;
pub use laws::rpow;
pub use polynomial::derivs_nmax;
pub use polynomial::derivs_rows;
pub use polynomial::eval_v;
pub use polynomial::fact_sc;
pub use polynomial::poly_finite;
pub use polynomial::poly_wf;
pub use polynomial::trimmed_len;
pub use polynomial::Polynomial;
pub use scalar::cx_add_v;
pub use scalar::cx_div_v;
pub use scalar::cx_is_finite;
pub use scalar::cx_is_nan;
pub use scalar::cx_is_zero;
pub use scalar::cx_mul_v;
pub use scalar::cx_neg_v;
pub use scalar::cx_one_v;
pub use scalar::cx_sub_v;
pub use scalar::cx_val_eq;
pub use scalar::cx_wf;
pub use scalar::cx_zero_v;
pub use scalar::divides;
pub use scalar::lemma_norm_preserves;
pub use scalar::lemma_norm_wf;
pub use scalar::lemma_norm_zero;
pub use scalar::fits;
pub use scalar::gcd_nat;
pub use scalar::int_abs;
pub use scalar::norm_rat_v;
pub use scalar::rat;
pub use scalar::rat_add;
pub use scalar::rat_div;
pub use scalar::rat_eq;
pub use scalar::rat_le;
pub use scalar::rat_lt;
pub use scalar::rat_mul;
pub use scalar::rat_neg;
pub use scalar::rat_one;
pub use scalar::rat_sub;
pub use scalar::rat_zero;
pub use scalar::real_abs_v;
pub use scalar::real_add_v;
pub use scalar::real_div_v;
pub use scalar::real_is_zero;
pub use scalar::real_mul_v;
pub use scalar::real_neg_v;
pub use scalar::real_one_v;
pub use scalar::real_sub_v;
pub use scalar::real_val_eq;
pub use scalar::real_wf;
pub use scalar::real_zero_v;
pub use scalar::Ratio;
pub use scalar::Real;
pub use scalar::Scalar;
pub use solve::cubic::cardano_exact;
pub use solve::cubic::adiv3_v;
pub use solve::cubic::cbrt_rat_v;
pub use solve::cubic::cq3_v;
pub use solve::cubic::cr2_v;
pub use solve::cubic::cubic_invariants_finite;
pub use solve::cubic::q_cap3_v;
pub use solve::cubic::r_cap2_v;
pub use solve::cubic::cardano_root_v;
pub use solve::cubic::cubic_outcome;
pub use solve::cubic::cubic_q_v;
pub use solve::cubic::cubic_r_v;
pub use solve::cubic::cubic_roots_wf;
pub use solve::cubic::q_cap_v;
pub use solve::cubic::r_cap_v;
pub use solve::cubic::CubicRoots;
pub use solve::quadratic::quad_disc_v;
pub use solve::quadratic::quad_outcome;
pub use solve::quadratic::real_int;
pub use solve::quadratic::sqrt_rat_v;
pub use solve::quadratic::two_a_v;
pub use solve::quadratic::QuadRoots;
pub use solve::radicals::cbrt_of;
pub use solve::radicals::is_cube;
pub use solve::radicals::is_square;
pub use solve::radicals::sqrt_of;
pub use utils::all_real;
pub use utils::check_if_correct_order;
pub use utils::check_if_real_coefficients;
pub use utils::convert_complex_to_real;
pub use utils::cx_convertible;
