//! The error type that covers the protocol and the packet codec.

use vstd::prelude::*;
use crate::protocol::ProtocolError;
use crate::wire::WireError;

verus! {

/// A protocol or codec error.
#[derive(Debug)]
pub enum QuoteCoreError {
    /// A rejected command line.
    Protocol(ProtocolError),
    /// A datagram that could not be encoded or decoded.
    Wire(WireError),
}

impl From<ProtocolError> for QuoteCoreError {
    fn from(e: ProtocolError) -> (r: QuoteCoreError)
        ensures
            r == QuoteCoreError::Protocol(e),
    {
        QuoteCoreError::Protocol(e)
    }
}

impl vstd::std_specs::convert::FromSpecImpl<ProtocolError> for QuoteCoreError {
    open spec fn obeys_from_spec() -> bool {
        true
    }

    open spec fn from_spec(e: ProtocolError) -> QuoteCoreError {
        QuoteCoreError::Protocol(e)
    }
}

impl From<WireError> for QuoteCoreError {
    fn from(e: WireError) -> (r: QuoteCoreError)
        ensures
            r == QuoteCoreError::Wire(e),
    {
        QuoteCoreError::Wire(e)
    }
}

impl vstd::std_specs::convert::FromSpecImpl<WireError> for QuoteCoreError {
    open spec fn obeys_from_spec() -> bool {
        true
    }

    open spec fn from_spec(e: WireError) -> QuoteCoreError {
        QuoteCoreError::Wire(e)
    }
}

} // verus!
