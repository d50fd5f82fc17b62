use vstd::prelude::*;

verus! {

/// The error number that says: try again.
pub const EAGAIN: i32 = 11;

/// The error number that says: the operation would block.
pub const EWOULDBLOCK: i32 = 41;

/// Why a request failed.
#[derive(Clone, Copy, Debug, PartialEq, Eq, Structural)]
pub enum Error {
    /// The path is not valid UTF-8.
    Permission,
    /// No listener is bound to the name.
    NotFound,
    /// The name is already bound.
    AlreadyExists,
    /// The handle is unknown or has the wrong role for the operation.
    BadFile,
    /// Unknown control command.
    InvalidArgument,
    /// The listener already holds a pending connection.
    ConnectionRefused,
    /// The pending connection went away before it was accepted.
    ConnectionReset,
    /// The peer has closed.
    BrokenPipe,
    /// The handle has no peer.
    NotConnected,
    /// The operation would block and the handle is non-blocking.
    Again,
    /// The request was cancelled while it was parked.
    Interrupted,
    /// The scheme was unmounted while the request was parked.
    NoDevice,
    /// A mapping request reaches past the end of the region.
    OutOfRange,
}

impl Error {
    /// The number by which the kernel knows this error.
    pub open spec fn spec_errno(self) -> i32 {
        match self {
            Error::Permission => 1,
            Error::NotFound => 2,
            Error::Interrupted => 4,
            Error::BadFile => 9,
            Error::Again => 11,
            Error::AlreadyExists => 17,
            Error::NoDevice => 19,
            Error::InvalidArgument => 22,
            Error::BrokenPipe => 32,
            Error::OutOfRange => 34,
            Error::ConnectionReset => 104,
            Error::NotConnected => 107,
            Error::ConnectionRefused => 111,
        }
    }

    /// The number by which the kernel knows this error.
    #[verifier::when_used_as_spec(spec_errno)]
    pub fn errno(self) -> (n: i32)
        ensures
            n == self.spec_errno(),
    {
        match self {
            Error::Permission => 1,
            Error::NotFound => 2,
            Error::Interrupted => 4,
            Error::BadFile => 9,
            Error::Again => 11,
            Error::AlreadyExists => 17,
            Error::NoDevice => 19,
            Error::InvalidArgument => 22,
            Error::BrokenPipe => 32,
            Error::OutOfRange => 34,
            Error::ConnectionReset => 104,
            Error::NotConnected => 107,
            Error::ConnectionRefused => 111,
        }
    }
}

/// Distinct errors have distinct numbers.
pub proof fn lemma_errno_injective(a: Error, b: Error)
    requires
        a.spec_errno() == b.spec_errno(),
    ensures
        a == b,
{
}

} // verus!
