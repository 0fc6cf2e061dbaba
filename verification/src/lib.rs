//! Dense linear-system solver: Gaussian elimination with partial pivoting,
//! back substitution, and verification of the solution against the pattern
//! that the deterministic system builder guarantees.
//!
//! All arithmetic is exact: matrix entries are rational numbers (`Rat`), so
//! the tolerances that a floating-point solver would need collapse to exact
//! comparisons of rational values.

pub mod rational;
pub mod views;
pub mod system;
pub mod eliminate;
pub mod substitute;
pub mod validate;
