//! The types nested in the `FileOptions` message.

pub use super::{OptimizeMode};
