//! The packet traits that a protocol implements on top of the network layer.
use vstd::prelude::*;

verus! {

/// A server-bound packet (received and processed by the server).
pub trait InPacket: Sized {
    /// Reads one packet from the front of `bytes`.
    ///
    /// The second component is the position the reader reached in `bytes`,
    /// whether or not a packet could be read: a reader that gets through the
    /// bytes of one packet reports that packet's length, and a reader never
    /// goes past the end of `bytes`.
    fn read(bytes: &[u8]) -> (result: (Result<Self, std::io::Error>, usize))
        ensures
            result.1 <= bytes@.len(),
    ;
}

/// A client-bound packet (received and processed by the client).
pub trait OutPacket {
    /// Appends the encoding of the packet to `out`.
    fn write(&self, out: &mut Vec<u8>) -> Result<(), std::io::Error>;
}

} // verus!
