use vstd::prelude::*;

verus! {

/// Errors of the task service.
#[derive(Debug, Clone, PartialEq, Eq)]
pub enum MyError {
    /// The key-value store was unreachable, a command failed, or a reply had the wrong shape.
    Redis(String),
    /// Stored bytes are absent, truncated or malformed.
    Decode,
    /// A task could not be serialised.
    Encode,
    /// A network address could not be parsed.
    AddrParse(String),
    /// The transport failed to serve.
    Transport(String),
}

} // verus!
