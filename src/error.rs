//! Errors of the wire codec, and of the operations that wrap socket I/O.
use vstd::prelude::*;

verus! {

/// Failures of encoding and decoding packets.
#[derive(Debug, Clone, Copy, PartialEq, Eq, Structural)]
pub enum FormatError {
    InvalidFormat,
    InvalidChecksum,
    BufferOverflow,
    MissingCookie,
}

/// An error of a DHCP operation: the socket's own, or a packet that could
/// not be encoded or decoded.
#[derive(Debug)]
pub enum Error<E> {
    Io(E),
    Format(FormatError),
}

impl<E> From<FormatError> for Error<E> {
    fn from(value: FormatError) -> (r: Error<E>) {
        Error::Format(value)
    }
}

impl<E> vstd::std_specs::convert::FromSpecImpl<FormatError> for Error<E> {
    open spec fn obeys_from_spec() -> bool {
        true
    }

    open spec fn from_spec(v: FormatError) -> Error<E> {
        Error::Format(v)
    }
}

} // verus!
