//! Handles for nodes and ports, and the port-type capability.
//!
//! Handles are dense integer indices. They are stable while the referent is
//! alive and may be recycled after deletion; the graph rejects operations on
//! freed handles.

use vstd::prelude::*;

verus! {

/// A handle to a node of the graph.
#[derive(Clone, Copy, PartialEq, Eq, Structural, Hash, Debug, Default)]
pub struct NodeRef(pub usize);

impl From<NodeRef> for usize {
    /// A node handle converts to its dense index.
    fn from(n: NodeRef) -> (r: usize)
        ensures
            r == n.0,
    {
        n.0
    }
}

impl vstd::std_specs::convert::FromSpecImpl<NodeRef> for usize {
    open spec fn obeys_from_spec() -> bool {
        true
    }

    open spec fn from_spec(n: NodeRef) -> usize {
        n.0
    }
}

/// A handle to a port of the graph.
#[derive(Clone, Copy, PartialEq, Eq, Structural, Hash, Debug, Default)]
pub struct PortRef(pub usize);

/// The capability a user-supplied port type must provide: a projection onto a
/// dense range of small integers, and the cardinality of that range.
///
/// `type_index` and `type_count` are the mathematical projection and
/// cardinality; `into_index` and `num_types` are their executable forms.
/// `index_below_count` obliges every implementation to keep the projection
/// inside the declared range, which lets the buffer allocator index a
/// per-type pool by `into_index`.
pub trait PortType: Sized + Copy {
    /// The dense index of this port type, as a mathematical value.
    spec fn type_index(self) -> int;

    /// The number of port types, as a mathematical value.
    spec fn type_count() -> int;

    /// The projection always lands inside the declared range.
    proof fn index_below_count(self)
        ensures
            0 <= self.type_index() < Self::type_count(),
    ;

    /// Project this port type to its dense index.
    fn into_index(&self) -> (r: usize)
        ensures
            r as int == self.type_index(),
    ;

    /// Report the cardinality of the port-type enumeration.
    fn num_types() -> (r: usize)
        ensures
            Self::type_count() == r as int,
    ;
}

/// The port types provided by default: audio signals and event streams.
#[derive(Debug, Clone, Copy, PartialEq, Eq, Structural, Hash)]
pub enum DefaultPortType {
    Audio,
    Event,
}

impl PortType for DefaultPortType {
    open spec fn type_index(self) -> int {
        match self {
            DefaultPortType::Audio => 0,
            DefaultPortType::Event => 1,
        }
    }

    open spec fn type_count() -> int {
        2
    }

    proof fn index_below_count(self) {
    }

    fn into_index(&self) -> (r: usize) {
        match self {
            DefaultPortType::Audio => 0,
            DefaultPortType::Event => 1,
        }
    }

    fn num_types() -> (r: usize) {
        2
    }
}

} // verus!
