use vstd::prelude::*;
use vstd::string::StringExecFns;

verus! {

/// The error kinds a cluster operation can surface.
///
/// `Io` stands for an underlying transport or filesystem failure (in the
/// in-memory model: running out of bytes before a read completed), `AddrParse`
/// for a malformed address, `Walk` for a filesystem traversal failure,
/// `UnknownFlag` for an out-of-range flag byte, and `InvalidConnectionId`
/// for a lookup miss in the master's connection table.
#[derive(Clone, Copy, Debug, PartialEq, Eq, Structural)]
pub enum ClusterError {
    Io,
    AddrParse,
    Walk,
    UnknownFlag,
    InvalidConnectionId,
}

impl ClusterError {
    /// A short description of the error kind.
    pub fn message(&self) -> (r: String)
        ensures
            *self is Io ==> r@ == "I/O failure"@,
            *self is AddrParse ==> r@ == "malformed address"@,
            *self is Walk ==> r@ == "filesystem traversal failure"@,
            *self is UnknownFlag ==> r@ == "unknown flag in stream"@,
            *self is InvalidConnectionId ==> r@ == "no such connection exists for ID"@,
    {
        match self {
            ClusterError::Io => String::from_str("I/O failure"),
            ClusterError::AddrParse => String::from_str("malformed address"),
            ClusterError::Walk => String::from_str("filesystem traversal failure"),
            ClusterError::UnknownFlag => String::from_str("unknown flag in stream"),
            ClusterError::InvalidConnectionId => String::from_str(
                "no such connection exists for ID",
            ),
        }
    }
}

} // verus!
