//! Laws that relate several operations of the graph.
//!
//! Most guarantees of this library are stated directly on the operations:
//! every mutator preserves [`Graph::wf`], which contains acyclicity and the
//! bidirectional storage of every edge; `connect` reports success without
//! change when the edge already exists; `compile` leaves the graph
//! untouched by taking it by shared reference. The lemmas here spell out
//! the consequences that span operations.

use vstd::prelude::*;

use crate::graph::{lemma_no_refs_when_cleared, Graph};
use crate::port::{NodeRef, PortType};

verus! {

impl<N, P, PT: PortType> Graph<N, P, PT> {
    /// Handle recycling is safe: a node handle whose adjacency list is
    /// empty — as `node` guarantees for every handle it returns, recycled
    /// or fresh — is referenced by no edge anywhere in the graph. In
    /// particular, after `delete_node(n)` and a later `node(..)` that
    /// returns the same handle, no edge of the old node survives.
    pub proof fn lemma_recycled_handle_isolated(self, n: NodeRef)
        requires
            self.wf(),
            0 <= (n.0 as int) < self.node_count(),
            self.adj(n.0 as int).len() == 0,
        ensures
            forall|m: int, i: int|
                0 <= m < self.node_count() && 0 <= i < self.adj(m).len() ==> (#[trigger] self.adj(
                    m,
                )[i]).src_node != n && self.adj(m)[i].dst_node != n,
    {
        lemma_no_refs_when_cleared(self, n.0 as int);
        assert forall|m: int, i: int|
            0 <= m < self.node_count() && 0 <= i < self.adj(m).len() implies (#[trigger] self.adj(
            m,
        )[i]).src_node != n && self.adj(m)[i].dst_node != n by {
            assert(self.adj(m)[i].src_node.0 != n.0 && self.adj(m)[i].dst_node.0 != n.0);
        }
    }

    /// Connecting is idempotent in effect: a well-formed graph stores at
    /// most one edge per `(src, dst)` port pair in any adjacency list, and
    /// `connect` on an existing pair returns success without change.
    pub proof fn lemma_at_most_one_edge_per_pair(self, src: crate::port::PortRef, dst: crate::port::PortRef)
        requires
            self.wf(),
        ensures
            forall|m: int, i: int, j: int|
                #![trigger self.adj(m)[i], self.adj(m)[j]]
                0 <= m < self.node_count() && 0 <= i < j < self.adj(m).len() ==> !(self.adj(
                    m,
                )[i].src_port == src && self.adj(m)[i].dst_port == dst && self.adj(m)[j].src_port
                    == src && self.adj(m)[j].dst_port == dst),
    {
        assert forall|m: int, i: int, j: int|
            #![trigger self.adj(m)[i], self.adj(m)[j]]
            0 <= m < self.node_count() && 0 <= i < j < self.adj(m).len() implies !(self.adj(
            m,
        )[i].src_port == src && self.adj(m)[i].dst_port == dst && self.adj(m)[j].src_port == src
            && self.adj(m)[j].dst_port == dst) by {
            assert(crate::seq_lemmas::distinct_by(self.adj(m), crate::graph::pair_key::<PT>()));
            assert(crate::graph::pair_key::<PT>()(self.adj(m)[i]) != crate::graph::pair_key::<PT>()(
                self.adj(m)[j],
            ));
        }
    }
}

} // verus!
