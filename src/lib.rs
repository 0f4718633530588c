//! Arithmetic in a finite field of prime order.

pub mod fermat;
pub mod field;
pub mod modpow;

pub use field::{FieldElement, FieldError};
