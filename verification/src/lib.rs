//! A property testing library in the style of Hypothesis and Hedgehog.
//!
//! Test data is generated by drawing from an underlying pool of bytes, and
//! generators are written so that smaller pools give smaller values (see
//! the [`generators`] module). A property is checked on values drawn at
//! random (see [`property`]); a failing example is then shrunk by shrinking
//! the pool it was drawn from (see the [`data`] module).

pub mod data;
pub mod generators;
pub mod properties;
pub mod subrandom;

pub use self::properties::{property, CheckConfig, CheckOutcome, CheckResult, Property};
