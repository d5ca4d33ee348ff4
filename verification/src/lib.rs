//! Forward-mode automatic differentiation with named variables.
//!
//! A `Dual` carries a scalar together with first-order partial derivatives
//! with respect to an ordered, deduplicated, shared set of string labels.
//! Arithmetic between duals tracking different label sets first reconciles
//! the operands onto a common set.  Scalars travel as IEEE-754 binary64 bit
//! patterns; their structure is modelled in `fbits`, and the format's four
//! rounding operations are carried out by a software IEEE implementation
//! behind `scalar`.

pub mod fbits;
pub mod scalar;
pub mod shared;
pub mod varset;
pub mod dual;
pub mod linalg;
pub mod interp;
