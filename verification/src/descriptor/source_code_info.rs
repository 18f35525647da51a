//! The types nested in the `SourceCodeInfo` message.

pub use super::{Location};
