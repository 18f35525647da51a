//! The types nested in the `GeneratedCodeInfo` message.

pub use super::{Annotation};
