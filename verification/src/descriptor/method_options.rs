//! The types nested in the `MethodOptions` message.

pub use super::{IdempotencyLevel};
