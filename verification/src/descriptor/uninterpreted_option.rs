//! The types nested in the `UninterpretedOption` message.

pub use super::{NamePart};
