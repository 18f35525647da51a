//! The types nested in the `EnumDescriptorProto` message.

pub use super::{EnumReservedRange};
