//! Static type information about protobuf message types.

use vstd::prelude::*;

verus! {

/// Provides basic static type information about a protobuf message type: its names.
pub trait DebugMessage {
    /// The full name of the message type, without a leading dot.
    spec fn spec_full_name() -> Seq<char>;

    /// The name of the message type.
    spec fn spec_name() -> Seq<char>;

    /// Gets the full name of the message type, without a leading dot.
    fn full_name() -> (r: &'static str)
        ensures
            r@ == Self::spec_full_name(),
    ;

    /// Gets the name of the message type.
    fn name() -> (r: &'static str)
        ensures
            r@ == Self::spec_name(),
    ;
}

} // verus!
