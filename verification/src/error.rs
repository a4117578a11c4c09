//! The errors a graph operation can return.
//!
//! Every user-facing failure is enumerated here and returned synchronously;
//! a failing operation leaves the graph unchanged.

use vstd::prelude::*;

verus! {

/// The error returned by a graph operation that rejects its input.
#[derive(Debug, Clone, Copy, PartialEq, Eq, Structural)]
pub enum Error {
    /// The node handle is out of range or has been freed.
    NodeDoesNotExist,
    /// The port handle is out of range or has been freed.
    PortDoesNotExist,
    /// Adding the edge would close a directed cycle.
    Cycle,
    /// The edge to disconnect is not present.
    ConnectionDoesNotExist,
    /// A reference passed through an external shell does not exist.
    RefDoesNotExist,
    /// The two ports of an edge must have the same port type.
    InvalidPortType,
}

impl Error {
    /// A human-readable description of the error.
    pub fn message(&self) -> (r: &'static str)
        ensures
            r@ == self.spec_message(),
    {
        match self {
            Error::NodeDoesNotExist => "Audio graph node does not exist",
            Error::PortDoesNotExist => "Audio graph port does not exist",
            Error::Cycle => "Audio graph cycle detected",
            Error::ConnectionDoesNotExist => "Audio graph connection does not exist",
            Error::RefDoesNotExist => "Audio graph reference does not exist",
            Error::InvalidPortType => "Cannot connect audio graph ports. Ports are a different type",
        }
    }

    /// The description `message` returns, as a sequence of characters.
    pub open spec fn spec_message(self) -> Seq<char> {
        match self {
            Error::NodeDoesNotExist => "Audio graph node does not exist"@,
            Error::PortDoesNotExist => "Audio graph port does not exist"@,
            Error::Cycle => "Audio graph cycle detected"@,
            Error::ConnectionDoesNotExist => "Audio graph connection does not exist"@,
            Error::RefDoesNotExist => "Audio graph reference does not exist"@,
            Error::InvalidPortType => "Cannot connect audio graph ports. Ports are a different type"@,
        }
    }
}

} // verus!
