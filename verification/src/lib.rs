//! Score outputs of language models against named rubrics from zero to one.
//!
//! Validators reject; rubrics rank. Use this when you want to know how good an
//! output is on each axis, not just whether it passes a binary gate.

pub mod accuracy_laws;
pub mod arithmetic;
pub mod average;
pub mod average_laws;
pub mod binary64;
pub mod number_laws;
pub mod rounding;
pub mod rubric;
pub mod rubric_set;
pub mod score;
pub mod set_laws;
pub mod text;

pub use binary64::Binary64;
pub use rubric::Rubric;
pub use rubric_set::{RubricSet, RubricSetError};
pub use score::{Outcome, PanicPayload, Report, Score};
