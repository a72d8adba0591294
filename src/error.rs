use vstd::prelude::*;
use vstd::string::StringExecFns;

verus! {

/// The four kinds of failure that the protocol distinguishes.
#[derive(Clone, Copy, Debug, PartialEq, Eq, Structural)]
pub enum ErrorKind {
    /// An application error.
    Failed,
    /// A transient lack of resources; the operation may be retried later.
    Overloaded,
    /// The connection was lost.
    Disconnected,
    /// The peer asked for something that is not supported.
    Unimplemented,
}

/// An error raised by the connection core.
#[derive(Debug)]
pub struct RpcError {
    pub kind: ErrorKind,
    pub reason: String,
}

/// An `Exception` as carried by `Abort`, `Return` and `Resolve` messages.
#[derive(Debug)]
pub struct Exception {
    /// The exception's type, or `None` when the wire holds a value outside the schema.
    pub kind: Option<ErrorKind>,
    /// The exception's reason, or `None` when the text is malformed.
    pub reason: Option<String>,
}

pub open spec fn remote_prefix() -> Seq<char> {
    "remote exception: "@
}

pub open spec fn malformed_reason() -> Seq<char> {
    "(malformed error)"@
}

/// The kind of the error that a received exception decodes to.
pub open spec fn remote_kind(e: Exception) -> ErrorKind {
    match (e.kind, e.reason) {
        (Some(k), Some(_)) => k,
        _ => ErrorKind::Failed,
    }
}

/// The reason of the error that a received exception decodes to.
pub open spec fn remote_reason(e: Exception) -> Seq<char> {
    match (e.kind, e.reason) {
        (Some(_), Some(r)) => remote_prefix() + r@,
        _ => remote_prefix() + malformed_reason(),
    }
}

impl RpcError {
    pub fn new(kind: ErrorKind, reason: &str) -> (r: RpcError)
        ensures
            r.kind == kind,
            r.reason@ == reason@,
    {
        RpcError { kind, reason: String::from_str(reason) }
    }

    pub fn failed(reason: &str) -> (r: RpcError)
        ensures
            r.kind == ErrorKind::Failed,
            r.reason@ == reason@,
    {
        RpcError::new(ErrorKind::Failed, reason)
    }

    pub fn unimplemented(reason: &str) -> (r: RpcError)
        ensures
            r.kind == ErrorKind::Unimplemented,
            r.reason@ == reason@,
    {
        RpcError::new(ErrorKind::Unimplemented, reason)
    }

    pub fn disconnected(reason: &str) -> (r: RpcError)
        ensures
            r.kind == ErrorKind::Disconnected,
            r.reason@ == reason@,
    {
        RpcError::new(ErrorKind::Disconnected, reason)
    }

    pub fn duplicate(&self) -> (r: RpcError)
        ensures
            r.kind == self.kind,
            r.reason@ == self.reason@,
    {
        RpcError { kind: self.kind, reason: self.reason.clone() }
    }
}

/// Turns an exception received from the peer into a local error: its kind is
/// kept and its reason is prefixed; a malformed exception becomes a `Failed`
/// error with a fixed reason.
pub fn remote_exception_to_error(exception: &Exception) -> (r: RpcError)
    ensures
        r.kind == remote_kind(*exception),
        r.reason@ == remote_reason(*exception),
{
    let prefix = String::from_str("remote exception: ");
    match (&exception.kind, &exception.reason) {
        (Some(k), Some(reason)) => RpcError { kind: *k, reason: prefix.concat(reason.as_str()) },
        _ => RpcError { kind: ErrorKind::Failed, reason: prefix.concat("(malformed error)") },
    }
}

} // verus!
