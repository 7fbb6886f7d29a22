//! Errors that the network layer reports.
use vstd::prelude::*;

verus! {

/// The operating system's I/O error, carried through the library unread.
#[verifier::external_type_specification]
#[verifier::external_body]
pub struct ExIoError(std::io::Error);

/// An error of the network layer.
#[derive(Debug)]
pub enum NetError {
    /// The connection was aborted on this side, for the given reason.
    ConnectionAborted(&'static str),
    /// An error that a socket, the poller or a packet codec reported.
    Io(std::io::Error),
}

/// Builds the error that reports an aborted connection with `message`.
pub fn new_io_abort_error(message: &'static str) -> (error: NetError)
    ensures
        error == NetError::ConnectionAborted(message),
{
    NetError::ConnectionAborted(message)
}

} // verus!
