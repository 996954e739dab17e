//! The underlying data generation and shrinking mechanism.
//!
//! Values are generated from an [`InfoSource`], a stream of bytes. An
//! [`InfoRecorder`] keeps the bytes that a generator drew as an [`InfoPool`],
//! which can be replayed, and shrunk by [`minimize`].

pub mod shrinkers;
pub mod source;
pub mod tap;

pub use self::shrinkers::minimize;

pub use self::source::{
    padded, Bytes, DataError, Draw, InfoPool, InfoRecorder, InfoReplay, InfoSink, InfoSource,
    RngSource, Span,
};
pub use self::tap::InfoTap;
