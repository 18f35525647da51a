//! The types nested in the `FieldDescriptorProto` message.

pub use super::{Type, Label};
