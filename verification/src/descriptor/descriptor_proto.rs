//! The types nested in the `DescriptorProto` message.

pub use super::{ExtensionRange, ReservedRange};
