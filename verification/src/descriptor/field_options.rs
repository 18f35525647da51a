//! The types nested in the `FieldOptions` message.

pub use super::{CType, JSType};
