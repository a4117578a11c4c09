//! The graph store: nodes, typed ports, directed edges, per-node delays.
//!
//! Storage is dense vectors indexed by handle. Deleted handles go to free
//! lists and are recycled by later creations. Every edge is stored twice,
//! once in each endpoint node's adjacency list, and the lists are kept
//! coherent by every mutation. The edge set is kept acyclic: `connect`
//! (in the `connect` module) rejects any edge that would close a cycle.

use vstd::prelude::*;

use crate::error::Error;
use crate::port::{NodeRef, PortRef, PortType};

verus! {

/// A directed, type-matched connection between two ports.
///
/// An edge is identified by its `(src_port, dst_port)` pair alone: a port
/// belongs to exactly one node and has exactly one type, so the node and
/// type fields are derived data, kept for convenient access.
#[derive(Clone, Copy, Debug)]
pub struct Edge<PT: PortType> {
    pub src_node: NodeRef,
    pub src_port: PortRef,
    pub dst_node: NodeRef,
    pub dst_port: PortRef,
    pub type_: PT,
}

/// Does `e` have `p` as one of its endpoints?
pub open spec fn touches<PT: PortType>(e: Edge<PT>, p: PortRef) -> bool {
    e.src_port == p || e.dst_port == p
}

/// The predicate an edge list is filtered by when port `p` is deleted.
pub open spec fn keep_not_port<PT: PortType>(p: PortRef) -> spec_fn(Edge<PT>) -> bool {
    |e: Edge<PT>| !touches(e, p)
}

/// The predicate an edge list is filtered by when the edge
/// `(sp, dp)` is disconnected.
pub open spec fn keep_not_pair<PT: PortType>(sp: PortRef, dp: PortRef) -> spec_fn(Edge<PT>) -> bool {
    |e: Edge<PT>| !(e.src_port == sp && e.dst_port == dp)
}

/// The predicate a port list is filtered by when port `p` is deleted.
pub open spec fn keep_not<A>(p: A) -> spec_fn(A) -> bool {
    |q: A| q != p
}

/// The predicate every edge list is filtered by when node `n` is deleted.
pub open spec fn keep_not_node<PT: PortType>(n: NodeRef) -> spec_fn(Edge<PT>) -> bool {
    |e: Edge<PT>| !(e.src_node == n || e.dst_node == n)
}

/// The identity of an edge: its `(src_port, dst_port)` pair.
pub open spec fn pair_key<PT: PortType>() -> spec_fn(Edge<PT>) -> (PortRef, PortRef) {
    |e: Edge<PT>| (e.src_port, e.dst_port)
}

/// A user-mutable graph of processing nodes with typed ports.
///
/// `N` and `P` are opaque user identifiers for nodes and ports; `PT` is the
/// user-supplied port-type enumeration. All operations keep the
/// well-formedness invariant [`Graph::wf`], which includes acyclicity of the
/// edge set.
pub struct Graph<N, P, PT: PortType> {
    /// Per node: the edges it takes part in (as source or destination).
    pub edges: Vec<Vec<Edge<PT>>>,
    /// Per node: the ports it owns.
    pub ports: Vec<Vec<PortRef>>,
    /// Per node: its intrinsic processing delay, in integer time units.
    pub delays: Vec<u64>,
    /// Per port: its owning node and its type.
    pub port_data: Vec<(NodeRef, PT)>,
    /// Per port: its user identifier.
    pub port_identifiers: Vec<P>,
    /// Per node: its user identifier.
    pub node_identifiers: Vec<N>,
    /// Node handles available for recycling.
    pub free_nodes: Vec<NodeRef>,
    /// Port handles available for recycling.
    pub free_ports: Vec<PortRef>,
}

impl<N, P, PT: PortType> Graph<N, P, PT> {
    /// The number of node slots ever created (live or freed).
    pub open spec fn node_count(self) -> int {
        self.ports@.len() as int
    }

    /// The number of port slots ever created (live or freed).
    pub open spec fn port_count(self) -> int {
        self.port_data@.len() as int
    }

    /// The adjacency list of node `n`: every edge with `n` as an endpoint.
    pub open spec fn adj(self, n: int) -> Seq<Edge<PT>> {
        self.edges@[n]@
    }

    /// The ports owned by node `n`.
    pub open spec fn node_ports(self, n: int) -> Seq<PortRef> {
        self.ports@[n]@
    }

    /// The node that owns port `p`.
    pub open spec fn port_owner(self, p: int) -> int {
        self.port_data@[p].0.0 as int
    }

    /// The type of port `p`.
    pub open spec fn port_ty(self, p: int) -> PT {
        self.port_data@[p].1
    }

    /// The intrinsic delay of node `n`.
    pub open spec fn delay(self, n: int) -> u64 {
        self.delays@[n]
    }

    /// Is `n` the index of a live (created and not deleted) node?
    pub open spec fn node_live(self, n: int) -> bool {
        &&& 0 <= n < self.node_count()
        &&& !self.free_nodes@.contains(NodeRef(n as usize))
    }

    /// Is `p` the index of a live (created and not deleted) port?
    pub open spec fn port_live(self, p: int) -> bool {
        &&& 0 <= p < self.port_count()
        &&& !self.free_ports@.contains(PortRef(p as usize))
    }

    /// A well-formed edge: both endpoints are live ports, the node fields
    /// match the ports' owners, the type field matches the source port's
    /// type, both ports have the same type index, and the endpoints are
    /// distinct nodes.
    pub open spec fn edge_wf(self, e: Edge<PT>) -> bool {
        &&& self.port_live(e.src_port.0 as int)
        &&& self.port_live(e.dst_port.0 as int)
        &&& e.src_node == self.port_data@[e.src_port.0 as int].0
        &&& e.dst_node == self.port_data@[e.dst_port.0 as int].0
        &&& e.type_ == self.port_ty(e.src_port.0 as int)
        &&& self.port_ty(e.src_port.0 as int).type_index() == self.port_ty(
            e.dst_port.0 as int,
        ).type_index()
        &&& e.src_node != e.dst_node
    }

    /// The dense per-handle vectors agree in length.
    pub open spec fn wf_lens(self) -> bool {
        &&& self.edges@.len() == self.node_count()
        &&& self.delays@.len() == self.node_count()
        &&& self.node_identifiers@.len() == self.node_count()
        &&& self.port_identifiers@.len() == self.port_count()
    }

    /// The free lists hold in-range handles, each at most once.
    pub open spec fn wf_free(self) -> bool {
        &&& forall|i: int|
            0 <= i < self.free_nodes@.len() ==> (#[trigger] self.free_nodes@[i]).0
                < self.node_count()
        &&& self.free_nodes@.no_duplicates()
        &&& forall|i: int|
            0 <= i < self.free_ports@.len() ==> (#[trigger] self.free_ports@[i]).0
                < self.port_count()
        &&& self.free_ports@.no_duplicates()
    }

    /// Port lists and per-port ownership records agree: a node lists exactly
    /// the live ports that name it as owner, without duplicates, and the
    /// owner of every live port is itself live.
    pub open spec fn wf_ports(self) -> bool {
        &&& forall|n: int, i: int|
            0 <= n < self.node_count() && 0 <= i < self.node_ports(n).len() ==> {
                let p = (#[trigger] self.node_ports(n)[i]).0 as int;
                self.port_live(p) && self.port_owner(p) == n
            }
        &&& forall|n: int|
            0 <= n < self.node_count() ==> (#[trigger] self.node_ports(n)).no_duplicates()
        &&& forall|p: int|
            #[trigger] self.port_live(p) ==> self.node_live(self.port_owner(p))
                && self.node_ports(self.port_owner(p)).contains(PortRef(p as usize))
    }

    /// A freed node keeps no edges and no ports.
    pub open spec fn wf_cleared(self) -> bool {
        forall|n: int|
            0 <= n < self.node_count() && !(#[trigger] self.node_live(n)) ==> self.adj(n).len()
                == 0 && self.node_ports(n).len() == 0
    }

    /// Every stored edge is well formed, names the node that stores it as an
    /// endpoint, and appears in both endpoint nodes' lists; within one list,
    /// no two edges share the `(src_port, dst_port)` pair.
    pub open spec fn wf_edges(self) -> bool {
        &&& forall|n: int, i: int|
            0 <= n < self.node_count() && 0 <= i < self.adj(n).len() ==> {
                let e = #[trigger] self.adj(n)[i];
                &&& self.edge_wf(e)
                &&& (e.src_node.0 == n || e.dst_node.0 == n)
                &&& self.adj(e.src_node.0 as int).contains(e)
                &&& self.adj(e.dst_node.0 as int).contains(e)
            }
        &&& forall|n: int|
            0 <= n < self.node_count() ==> crate::seq_lemmas::distinct_by(
                #[trigger] self.adj(n),
                pair_key::<PT>(),
            )
    }

    /// Is there an edge from node `a` to node `b`?
    pub open spec fn has_edge(self, a: int, b: int) -> bool {
        &&& 0 <= a < self.node_count()
        &&& exists|i: int|
            0 <= i < self.adj(a).len() && (#[trigger] self.adj(a)[i]).src_node.0 == a
                && self.adj(a)[i].dst_node.0 == b
    }

    /// Is `p` a walk along directed edges?
    pub open spec fn is_path(self, p: Seq<int>) -> bool {
        &&& p.len() >= 1
        &&& forall|i: int| 0 <= i < p.len() - 1 ==> self.has_edge(#[trigger] p[i], p[i + 1])
    }

    /// Does some walk lead from node `a` to node `b`?
    pub open spec fn reaches(self, a: int, b: int) -> bool {
        exists|p: Seq<int>| #[trigger] self.is_path(p) && p.first() == a && p.last() == b
    }

    /// No walk of at least one edge returns to its starting node.
    pub open spec fn acyclic(self) -> bool {
        forall|p: Seq<int>| p.len() >= 2 && #[trigger] self.is_path(p) ==> p.first() != p.last()
    }

    /// The well-formedness invariant: every operation requires it and
    /// preserves it.
    pub open spec fn wf(self) -> bool {
        &&& self.wf_lens()
        &&& self.wf_free()
        &&& self.wf_ports()
        &&& self.wf_cleared()
        &&& self.wf_edges()
        &&& self.acyclic()
    }

    /// The port side of two graphs agrees.
    pub open spec fn same_ports_side(g1: Self, g2: Self) -> bool {
        &&& g2.port_data@ == g1.port_data@
        &&& g2.port_identifiers@ == g1.port_identifiers@
        &&& g2.free_ports@ == g1.free_ports@
    }

    /// Node `m` is untouched between two graphs.
    pub open spec fn node_untouched(g1: Self, g2: Self, m: int) -> bool {
        &&& g2.adj(m) == g1.adj(m)
        &&& g2.node_ports(m) == g1.node_ports(m)
        &&& g2.delay(m) == g1.delay(m)
        &&& g2.node_identifiers@[m] == g1.node_identifiers@[m]
    }
}

/// If every edge of `g2` is an edge of `g1`, acyclicity carries over.
pub proof fn lemma_acyclic_mono<N, P, PT: PortType>(g1: Graph<N, P, PT>, g2: Graph<N, P, PT>)
    requires
        g1.acyclic(),
        forall|a: int, b: int| #[trigger] g2.has_edge(a, b) ==> g1.has_edge(a, b),
    ensures
        g2.acyclic(),
{
    assert forall|p: Seq<int>| p.len() >= 2 && #[trigger] g2.is_path(p) implies p.first()
        != p.last() by {
        assert(forall|i: int| 0 <= i < p.len() - 1 ==> g1.has_edge(#[trigger] p[i], p[i + 1]));
        assert(g1.is_path(p));
    }
}

/// In a well-formed graph, a node with an empty adjacency list is referenced
/// by no edge anywhere.
pub proof fn lemma_no_refs_when_cleared<N, P, PT: PortType>(g: Graph<N, P, PT>, n: int)
    requires
        g.wf_edges(),
        0 <= n < g.node_count(),
        g.adj(n).len() == 0,
    ensures
        forall|m: int, i: int|
            0 <= m < g.node_count() && 0 <= i < g.adj(m).len() ==> (#[trigger] g.adj(m)[i]).src_node.0
                != n && g.adj(m)[i].dst_node.0 != n,
{
    assert forall|m: int, i: int|
        0 <= m < g.node_count() && 0 <= i < g.adj(m).len() implies (#[trigger] g.adj(m)[i]).src_node.0
        != n && g.adj(m)[i].dst_node.0 != n by {
        let e = g.adj(m)[i];
        if e.src_node.0 == n {
            assert(g.adj(n).contains(e));
        }
        if e.dst_node.0 == n {
            assert(g.adj(n).contains(e));
        }
    }
}

/// Does `v` contain the node handle `x`?
pub(crate) fn contains_node(v: &Vec<NodeRef>, x: NodeRef) -> (b: bool)
    ensures
        b == v@.contains(x),
{
    let mut i: usize = 0;
    while i < v.len()
        invariant
            0 <= i <= v@.len(),
            forall|j: int| 0 <= j < i ==> v@[j] != x,
        decreases v@.len() - i,
    {
        if v[i] == x {
            proof {
                assert(v@[i as int] == x);
            }
            return true;
        }
        i = i + 1;
    }
    false
}

/// Does `v` contain the port handle `x`?
fn contains_port(v: &Vec<PortRef>, x: PortRef) -> (b: bool)
    ensures
        b == v@.contains(x),
{
    let mut i: usize = 0;
    while i < v.len()
        invariant
            0 <= i <= v@.len(),
            forall|j: int| 0 <= j < i ==> v@[j] != x,
        decreases v@.len() - i,
    {
        if v[i] == x {
            proof {
                assert(v@[i as int] == x);
            }
            return true;
        }
        i = i + 1;
    }
    false
}

impl<N, P, PT: PortType> Default for Graph<N, P, PT> {
    /// A fresh graph: no nodes, no ports, no edges.
    fn default() -> (r: Self)
        ensures
            r.wf(),
            r.node_count() == 0,
            r.port_count() == 0,
            r.free_nodes@.len() == 0,
            r.free_ports@.len() == 0,
    {
        let r = Graph {
            edges: Vec::new(),
            ports: Vec::new(),
            delays: Vec::new(),
            port_data: Vec::new(),
            port_identifiers: Vec::new(),
            node_identifiers: Vec::new(),
            free_nodes: Vec::new(),
            free_ports: Vec::new(),
        };
        proof {
            assert forall|p: Seq<int>| p.len() >= 2 && #[trigger] r.is_path(p) implies p.first()
                != p.last() by {
                assert(!r.has_edge(p[0], p[1]));
            }
        }
        r
    }
}

impl<N, P, PT: PortType> Graph<N, P, PT> {
    /// Succeeds exactly on live node handles; freed or out-of-range handles
    /// are rejected with `NodeDoesNotExist`.
    pub fn node_check(&self, node: NodeRef) -> (r: Result<(), Error>)
        ensures
            r == (if self.node_live(node.0 as int) {
                Ok::<(), Error>(())
            } else {
                Err::<(), Error>(Error::NodeDoesNotExist)
            }),
    {
        if node.0 < self.ports.len() && !contains_node(&self.free_nodes, node) {
            Ok(())
        } else {
            Err(Error::NodeDoesNotExist)
        }
    }

    /// Succeeds exactly on live port handles; freed or out-of-range handles
    /// are rejected with `PortDoesNotExist`.
    pub fn port_check(&self, port: PortRef) -> (r: Result<(), Error>)
        ensures
            r == (if self.port_live(port.0 as int) {
                Ok::<(), Error>(())
            } else {
                Err::<(), Error>(Error::PortDoesNotExist)
            }),
    {
        if port.0 < self.port_data.len() && !contains_port(&self.free_ports, port) {
            Ok(())
        } else {
            Err(Error::PortDoesNotExist)
        }
    }

    /// Create a node with identifier `ident` and delay 0, recycling a freed
    /// handle when one is available.
    pub fn node(&mut self, ident: N) -> (r: NodeRef)
        requires
            old(self).wf(),
        ensures
            final(self).wf(),
            final(self).node_live(r.0 as int),
            !old(self).node_live(r.0 as int),
            final(self).adj(r.0 as int).len() == 0,
            final(self).node_ports(r.0 as int).len() == 0,
            final(self).delay(r.0 as int) == 0,
            final(self).node_identifiers@[r.0 as int] == ident,
            forall|m: int|
                0 <= m < old(self).node_count() && m != r.0 ==> Self::node_untouched(
                    *old(self),
                    *final(self),
                    m,
                ) && (final(self).node_live(m) <==> old(self).node_live(m)),
            Self::same_ports_side(*old(self), *final(self)),
            old(self).free_nodes@.len() > 0 ==> ({
                &&& r == old(self).free_nodes@.last()
                &&& final(self).node_count() == old(self).node_count()
                &&& final(self).free_nodes@ == old(self).free_nodes@.drop_last()
            }),
            old(self).free_nodes@.len() == 0 ==> ({
                &&& r.0 == old(self).node_count()
                &&& final(self).node_count() == old(self).node_count() + 1
                &&& final(self).free_nodes@ == old(self).free_nodes@
            }),
    {
        let popped = self.free_nodes.pop();
        if let Some(n) = popped {
            let id = n.0;
            proof {
                let ofn = old(self).free_nodes@;
                assert(ofn[ofn.len() - 1] == n);
                assert(id < old(self).node_count());
                assert(!self.free_nodes@.contains(n)) by {
                    if self.free_nodes@.contains(n) {
                        let k = choose|k: int|
                            0 <= k < self.free_nodes@.len() && self.free_nodes@[k] == n;
                        assert(ofn[k] == n);
                    }
                }
                assert(forall|x: NodeRef|
                    #[trigger] self.free_nodes@.contains(x) ==> ofn.contains(x)) by {
                    assert forall|x: NodeRef| #[trigger] self.free_nodes@.contains(x) implies ofn.contains(
                        x,
                    ) by {
                        let k = choose|k: int|
                            0 <= k < self.free_nodes@.len() && self.free_nodes@[k] == x;
                        assert(ofn[k] == x);
                    }
                }
                assert(forall|x: NodeRef| ofn.contains(x) && x != n ==> self.free_nodes@.contains(x))
                    by {
                    assert forall|x: NodeRef| ofn.contains(x) && x != n implies self.free_nodes@.contains(
                        x,
                    ) by {
                        let k = choose|k: int| 0 <= k < ofn.len() && ofn[k] == x;
                        assert(k < ofn.len() - 1) by {
                            if k == ofn.len() - 1 {
                                assert(ofn[k] == n);
                            }
                        }
                        assert(self.free_nodes@[k] == x);
                    }
                }
            }
            self.edges.set(id, Vec::new());
            self.ports.set(id, Vec::new());
            self.delays.set(id, 0);
            self.node_identifiers.set(id, ident);
            proof {
                lemma_wf_after_node_recycle(*old(self), *self, n);
                assert forall|m: int|
                    0 <= m < old(self).node_count() && m != n.0 implies Self::node_untouched(
                    *old(self),
                    *self,
                    m,
                ) && (self.node_live(m) <==> old(self).node_live(m)) by {
                    assert(self.edges@[m] == old(self).edges@[m]);
                    assert(self.ports@[m] == old(self).ports@[m]);
                    let mr = NodeRef(m as usize);
                    assert(old(self).ports.len() as int == old(self).node_count());
                    assert(mr.0 as int == m);
                    assert(mr != n);
                    assert(self.free_nodes@.contains(mr) <==> old(self).free_nodes@.contains(mr));
                }
            }
            n
        } else {
            let id = self.ports.len();
            self.edges.push(Vec::new());
            self.ports.push(Vec::new());
            self.delays.push(0);
            self.node_identifiers.push(ident);
            proof {
                lemma_wf_after_node_fresh(*old(self), *self, NodeRef(id));
                assert forall|m: int|
                    0 <= m < old(self).node_count() && m != id implies Self::node_untouched(
                    *old(self),
                    *self,
                    m,
                ) && (self.node_live(m) <==> old(self).node_live(m)) by {
                    assert(self.edges@[m] == old(self).edges@[m]);
                    assert(self.ports@[m] == old(self).ports@[m]);
                }
            }
            NodeRef(id)
        }
    }

    /// Create a port of type `type_` with identifier `ident` on `node`,
    /// recycling a freed port handle when one is available.
    pub fn port(&mut self, node: NodeRef, type_: PT, ident: P) -> (r: Result<PortRef, Error>)
        requires
            old(self).wf(),
        ensures
            final(self).wf(),
            !old(self).node_live(node.0 as int) ==> r == Err::<PortRef, Error>(
                Error::NodeDoesNotExist,
            ) && *final(self) == *old(self),
            old(self).node_live(node.0 as int) ==> ({
                let p = if old(self).free_ports@.len() > 0 {
                    old(self).free_ports@.last()
                } else {
                    PortRef(old(self).port_count() as usize)
                };
                &&& r == Ok::<PortRef, Error>(p)
                &&& !old(self).port_live(p.0 as int)
                &&& final(self).port_live(p.0 as int)
                &&& final(self).port_owner(p.0 as int) == node.0 as int
                &&& final(self).port_ty(p.0 as int) == type_
                &&& final(self).port_identifiers@[p.0 as int] == ident
                &&& final(self).node_ports(node.0 as int) == old(self).node_ports(
                    node.0 as int,
                ).push(p)
                &&& forall|m: int|
                    0 <= m < old(self).node_count() && m != node.0 ==> final(self).node_ports(m)
                        == old(self).node_ports(m)
                &&& final(self).edges@ == old(self).edges@
                &&& final(self).delays@ == old(self).delays@
                &&& final(self).node_identifiers@ == old(self).node_identifiers@
                &&& final(self).free_nodes@ == old(self).free_nodes@
                &&& final(self).node_count() == old(self).node_count()
                &&& forall|q: int|
                    0 <= q < old(self).port_count() && q != p.0 ==> final(self).port_data@[q] == old(
                        self,
                    ).port_data@[q] && final(self).port_identifiers@[q] == old(
                        self,
                    ).port_identifiers@[q] && (final(self).port_live(q) <==> old(self).port_live(q))
                &&& (old(self).free_ports@.len() > 0 ==> final(self).free_ports@ == old(
                    self,
                ).free_ports@.drop_last() && final(self).port_count() == old(self).port_count())
                &&& (old(self).free_ports@.len() == 0 ==> final(self).free_ports@ == old(
                    self,
                ).free_ports@ && final(self).port_count() == old(self).port_count() + 1)
            }),
    {
        self.node_check(node)?;
        let popped = self.free_ports.pop();
        if let Some(p) = popped {
            proof {
                let ofp = old(self).free_ports@;
                assert(ofp[ofp.len() - 1] == p);
                assert(p.0 < old(self).port_count());
                assert(!self.free_ports@.contains(p)) by {
                    if self.free_ports@.contains(p) {
                        let k = choose|k: int|
                            0 <= k < self.free_ports@.len() && self.free_ports@[k] == p;
                        assert(ofp[k] == p);
                    }
                }
                assert forall|x: PortRef| #[trigger] self.free_ports@.contains(x) implies ofp.contains(
                    x,
                ) && x != p by {
                    let k = choose|k: int|
                        0 <= k < self.free_ports@.len() && self.free_ports@[k] == x;
                    assert(ofp[k] == x);
                }
                assert forall|x: PortRef| ofp.contains(x) && x != p implies self.free_ports@.contains(
                    x,
                ) by {
                    let k = choose|k: int| 0 <= k < ofp.len() && ofp[k] == x;
                    assert(k < ofp.len() - 1) by {
                        if k == ofp.len() - 1 {
                            assert(ofp[k] == p);
                        }
                    }
                    assert(self.free_ports@[k] == x);
                }
            }
            self.ports[node.0].push(p);
            self.port_data.set(p.0, (node, type_));
            self.port_identifiers.set(p.0, ident);
            proof {
                lemma_wf_after_port_add(*old(self), *self, node, p);
            }
            Ok(p)
        } else {
            let p = PortRef(self.port_data.len());
            self.ports[node.0].push(p);
            self.port_data.push((node, type_));
            self.port_identifiers.push(ident);
            proof {
                assert(!old(self).port_live(p.0 as int));
                lemma_wf_after_port_add(*old(self), *self, node, p);
            }
            Ok(p)
        }
    }

    /// Delete a live port: every edge touching it is removed from both
    /// endpoint nodes' adjacency lists, the port leaves its owner's port
    /// list, and its handle goes to the free list.
    pub fn delete_port(&mut self, p: PortRef) -> (r: Result<(), Error>)
        requires
            old(self).wf(),
        ensures
            final(self).wf(),
            r == (if old(self).port_live(p.0 as int) {
                Ok::<(), Error>(())
            } else {
                Err::<(), Error>(Error::PortDoesNotExist)
            }),
            !old(self).port_live(p.0 as int) ==> *final(self) == *old(self),
            old(self).port_live(p.0 as int) ==> ({
                &&& !final(self).port_live(p.0 as int)
                &&& final(self).free_ports@ == old(self).free_ports@.push(p)
                &&& final(self).port_data@ == old(self).port_data@
                &&& final(self).port_identifiers@ == old(self).port_identifiers@
                &&& final(self).delays@ == old(self).delays@
                &&& final(self).node_identifiers@ == old(self).node_identifiers@
                &&& final(self).free_nodes@ == old(self).free_nodes@
                &&& final(self).node_count() == old(self).node_count()
                &&& final(self).port_count() == old(self).port_count()
                &&& forall|q: int|
                    0 <= q < old(self).port_count() && q != p.0 ==> ((#[trigger] final(self).port_live(q)) <==> old(self).port_live(q))
                &&& forall|n: int|
                    0 <= n < old(self).node_count() ==> final(self).adj(n) == old(self).adj(
                        n,
                    ).filter(keep_not_port::<PT>(p))
                &&& forall|n: int|
                    0 <= n < old(self).node_count() ==> final(self).node_ports(n) == old(
                        self,
                    ).node_ports(n).filter(keep_not::<PortRef>(p))
            }),
    {
        self.port_check(p)?;
        let owner = self.port_data[p.0].0;
        proof {
            assert(old(self).port_live(p.0 as int));
            assert(old(self).node_live(owner.0 as int));
        }
        let n_nodes = self.ports.len();
        let mut n: usize = 0;
        while n < n_nodes
            invariant
                n_nodes as int == old(self).node_count(),
                0 <= n <= n_nodes,
                self.ports@ == old(self).ports@,
                self.delays@ == old(self).delays@,
                self.port_data@ == old(self).port_data@,
                self.port_identifiers@ == old(self).port_identifiers@,
                self.node_identifiers@ == old(self).node_identifiers@,
                self.free_nodes@ == old(self).free_nodes@,
                self.free_ports@ == old(self).free_ports@,
                self.edges@.len() == old(self).edges@.len(),
                forall|k: int|
                    0 <= k < n ==> #[trigger] self.adj(k) == old(self).adj(k).filter(
                        keep_not_port::<PT>(p),
                    ),
                forall|k: int| n <= k < n_nodes ==> #[trigger] self.edges@[k] == old(self).edges@[k],
            decreases n_nodes - n,
        {
            let filtered = edges_without_port(&self.edges[n], p);
            let ghost prev = *self;
            self.edges.set(n, filtered);
            proof {
                assert forall|k: int|
                    0 <= k < n + 1 implies #[trigger] self.adj(k) == old(self).adj(k).filter(
                    keep_not_port::<PT>(p),
                ) by {
                    if k < n {
                        assert(prev.adj(k) == old(self).adj(k).filter(keep_not_port::<PT>(p)));
                        assert(self.edges@[k] == prev.edges@[k]);
                    } else {
                        assert(self.edges@[k] == filtered);
                        assert(prev.edges@[k] == old(self).edges@[k]);
                    }
                }
            }
            n = n + 1;
        }
        let ghost mid = *self;
        let np = ports_without(&self.ports[owner.0], p);
        self.ports.set(owner.0, np);
        self.free_ports.push(p);
        proof {
            assert forall|k: int|
                0 <= k < old(self).node_count() implies #[trigger] self.adj(k) == old(self).adj(
                k,
            ).filter(keep_not_port::<PT>(p)) by {
                assert(mid.adj(k) == old(self).adj(k).filter(keep_not_port::<PT>(p)));
            }
            assert(mid.ports@ == old(self).ports@);
            assert(self.node_ports(owner.0 as int) == old(self).node_ports(owner.0 as int).filter(
                keep_not::<PortRef>(p),
            ));
            lemma_wf_after_delete_port(*old(self), *self, p, owner);
        }
        Ok(())
    }

    /// Is there an edge from port `src` to port `dst`?
    pub open spec fn connected(self, src: PortRef, dst: PortRef) -> bool {
        exists|i: int|
            0 <= i < self.adj(self.port_owner(src.0 as int)).len() && (#[trigger] self.adj(
                self.port_owner(src.0 as int),
            )[i]).src_port == src && self.adj(self.port_owner(src.0 as int))[i].dst_port == dst
    }

    /// Delete a live node: all of its ports are deleted (removing every edge
    /// that touches the node), and its handle goes to the free list.
    pub fn delete_node(&mut self, n: NodeRef) -> (r: Result<(), Error>)
        requires
            old(self).wf(),
        ensures
            final(self).wf(),
            r == (if old(self).node_live(n.0 as int) {
                Ok::<(), Error>(())
            } else {
                Err::<(), Error>(Error::NodeDoesNotExist)
            }),
            !old(self).node_live(n.0 as int) ==> *final(self) == *old(self),
            old(self).node_live(n.0 as int) ==> ({
                &&& !final(self).node_live(n.0 as int)
                &&& final(self).free_nodes@ == old(self).free_nodes@.push(n)
                &&& final(self).node_ports(n.0 as int).len() == 0
                &&& final(self).adj(n.0 as int).len() == 0
                &&& forall|m: int|
                    0 <= m < old(self).node_count() && m != n.0 ==> final(self).node_ports(m)
                        == old(self).node_ports(m)
                &&& forall|m: int|
                    0 <= m < old(self).node_count() ==> final(self).adj(m) == old(self).adj(
                        m,
                    ).filter(keep_not_node::<PT>(n))
                &&& final(self).free_ports@ == old(self).free_ports@ + old(self).node_ports(
                    n.0 as int,
                )
                &&& final(self).port_data@ == old(self).port_data@
                &&& final(self).port_identifiers@ == old(self).port_identifiers@
                &&& final(self).delays@ == old(self).delays@
                &&& final(self).node_identifiers@ == old(self).node_identifiers@
                &&& final(self).node_count() == old(self).node_count()
                &&& final(self).port_count() == old(self).port_count()
                &&& forall|q: int|
                    0 <= q < old(self).port_count() ==> ((#[trigger] final(self).port_live(q))
                        <==> (old(self).port_live(q) && old(self).port_owner(q) != n.0))
                &&& forall|m: int|
                    0 <= m < old(self).node_count() && m != n.0 ==> (final(self).node_live(m)
                        <==> old(self).node_live(m))
            }),
    {
        self.node_check(n)?;
        let mut i: usize = 0;
        let plen = self.ports[n.0].len();
        proof {
            assert(old(self).node_ports(n.0 as int).subrange(0, 0) =~= Seq::<PortRef>::empty());
            assert(self.free_ports@ =~= old(self).free_ports@ + old(self).node_ports(
                n.0 as int,
            ).subrange(0, 0));
        }
        while i < plen
            invariant
                0 <= i <= plen,
                n.0 < self.ports@.len(),
                plen as int == old(self).node_ports(n.0 as int).len(),
                self.edges@ == old(self).edges@,
                self.ports@ == old(self).ports@,
                self.delays@ == old(self).delays@,
                self.port_data@ == old(self).port_data@,
                self.port_identifiers@ == old(self).port_identifiers@,
                self.node_identifiers@ == old(self).node_identifiers@,
                self.free_nodes@ == old(self).free_nodes@,
                self.free_ports@ == old(self).free_ports@ + old(self).node_ports(
                    n.0 as int,
                ).subrange(0, i as int),
            decreases plen - i,
        {
            let q = self.ports[n.0][i];
            self.free_ports.push(q);
            proof {
                assert(old(self).node_ports(n.0 as int).subrange(0, i + 1) =~= old(
                    self,
                ).node_ports(n.0 as int).subrange(0, i as int).push(q));
                assert(self.free_ports@ =~= old(self).free_ports@ + old(self).node_ports(
                    n.0 as int,
                ).subrange(0, i + 1));
            }
            i = i + 1;
        }
        proof {
            assert(old(self).node_ports(n.0 as int).subrange(
                0,
                old(self).node_ports(n.0 as int).len() as int,
            ) =~= old(self).node_ports(n.0 as int));
        }
        self.ports.set(n.0, Vec::new());
        let n_nodes = self.edges.len();
        let mut m: usize = 0;
        while m < n_nodes
            invariant
                0 <= m <= n_nodes,
                n_nodes as int == old(self).node_count(),
                self.ports@.len() == old(self).ports@.len(),
                self.node_ports(n.0 as int).len() == 0,
                forall|k: int|
                    0 <= k < old(self).node_count() && k != n.0 ==> self.ports@[k] == old(
                        self,
                    ).ports@[k],
                self.delays@ == old(self).delays@,
                self.port_data@ == old(self).port_data@,
                self.port_identifiers@ == old(self).port_identifiers@,
                self.node_identifiers@ == old(self).node_identifiers@,
                self.free_nodes@ == old(self).free_nodes@,
                self.free_ports@ == old(self).free_ports@ + old(self).node_ports(n.0 as int),
                self.edges@.len() == old(self).edges@.len(),
                forall|k: int|
                    0 <= k < m ==> #[trigger] self.adj(k) == old(self).adj(k).filter(
                        keep_not_node::<PT>(n),
                    ),
                forall|k: int| m <= k < n_nodes ==> #[trigger] self.edges@[k] == old(self).edges@[k],
            decreases n_nodes - m,
        {
            let filtered = edges_without_node(&self.edges[m], n);
            let ghost prev = *self;
            self.edges.set(m, filtered);
            proof {
                assert forall|k: int|
                    0 <= k < m + 1 implies #[trigger] self.adj(k) == old(self).adj(k).filter(
                    keep_not_node::<PT>(n),
                ) by {
                    if k < m {
                        assert(prev.adj(k) == old(self).adj(k).filter(keep_not_node::<PT>(n)));
                        assert(self.edges@[k] == prev.edges@[k]);
                    } else {
                        assert(self.edges@[k] == filtered);
                        assert(prev.edges@[k] == old(self).edges@[k]);
                    }
                }
            }
            m = m + 1;
        }
        let ghost mid = *self;
        self.free_nodes.push(n);
        proof {
            assert forall|k: int|
                0 <= k < old(self).node_count() implies #[trigger] self.adj(k) == old(self).adj(
                k,
            ).filter(keep_not_node::<PT>(n)) by {
                assert(mid.adj(k) == old(self).adj(k).filter(keep_not_node::<PT>(n)));
            }
            lemma_wf_after_delete_node(*old(self), *self, n);
        }
        Ok(())
    }

    /// Remove the edge from `src` to `dst`. Both handles must be live and
    /// the edge must exist; it is removed from both endpoint nodes' lists.
    pub fn disconnect(&mut self, src: PortRef, dst: PortRef) -> (r: Result<(), Error>)
        requires
            old(self).wf(),
        ensures
            final(self).wf(),
            !old(self).port_live(src.0 as int) || !old(self).port_live(dst.0 as int) ==> r
                == Err::<(), Error>(Error::PortDoesNotExist) && *final(self) == *old(self),
            old(self).port_live(src.0 as int) && old(self).port_live(dst.0 as int) && !old(
                self,
            ).connected(src, dst) ==> r == Err::<(), Error>(Error::ConnectionDoesNotExist)
                && *final(self) == *old(self),
            old(self).port_live(src.0 as int) && old(self).port_live(dst.0 as int) && old(
                self,
            ).connected(src, dst) ==> ({
                &&& r == Ok::<(), Error>(())
                &&& forall|m: int|
                    0 <= m < old(self).node_count() ==> final(self).adj(m) == old(self).adj(
                        m,
                    ).filter(keep_not_pair::<PT>(src, dst))
                &&& final(self).ports@ == old(self).ports@
                &&& final(self).delays@ == old(self).delays@
                &&& final(self).node_identifiers@ == old(self).node_identifiers@
                &&& final(self).free_nodes@ == old(self).free_nodes@
                &&& Self::same_ports_side(*old(self), *final(self))
                &&& !final(self).connected(src, dst)
            }),
    {
        self.port_check(src)?;
        self.port_check(dst)?;
        let sn = self.port_data[src.0].0;
        let dn = self.port_data[dst.0].0;
        proof {
            assert(old(self).node_live(sn.0 as int));
        }
        let found = find_pair(&self.edges[sn.0], src, dst);
        if !found {
            return Err(Error::ConnectionDoesNotExist);
        }
        proof {
            let i = choose|i: int|
                0 <= i < old(self).adj(sn.0 as int).len() && (#[trigger] old(self).adj(
                    sn.0 as int,
                )[i]).src_port == src && old(self).adj(sn.0 as int)[i].dst_port == dst;
            let e = old(self).adj(sn.0 as int)[i];
            assert(old(self).edge_wf(e));
            assert(e.src_node == sn && e.dst_node == dn);
            assert(sn != dn);
        }
        let fs = edges_without_pair(&self.edges[sn.0], src, dst);
        self.edges.set(sn.0, fs);
        let ghost mid = *self;
        let fd = edges_without_pair(&self.edges[dn.0], src, dst);
        self.edges.set(dn.0, fd);
        proof {
            assert(mid.edges@[dn.0 as int] == old(self).edges@[dn.0 as int]);
            assert forall|m: int|
                0 <= m < old(self).node_count() implies #[trigger] self.adj(m) == old(self).adj(
                m,
            ).filter(keep_not_pair::<PT>(src, dst)) by {
                if m == sn.0 as int {
                    assert(self.edges@[m] == fs);
                } else if m == dn.0 as int {
                    assert(self.edges@[m] == fd);
                } else {
                    assert(self.edges@[m] == old(self).edges@[m]);
                    assert forall|i: int|
                        0 <= i < old(self).adj(m).len() implies keep_not_pair::<PT>(src, dst)(
                        #[trigger] old(self).adj(m)[i],
                    ) by {
                        let e = old(self).adj(m)[i];
                        if e.src_port == src && e.dst_port == dst {
                            assert(old(self).edge_wf(e));
                            assert(e.src_node == sn && e.dst_node == dn);
                            assert(e.src_node.0 == m || e.dst_node.0 == m);
                        }
                    }
                    crate::seq_lemmas::lemma_filter_all(
                        old(self).adj(m),
                        keep_not_pair::<PT>(src, dst),
                    );
                }
            }
            lemma_wf_after_disconnect(*old(self), *self, src, dst);
            assert(!self.connected(src, dst)) by {
                let so = self.port_owner(src.0 as int);
                assert(so == sn.0 as int);
                if self.connected(src, dst) {
                    let i = choose|i: int|
                        0 <= i < self.adj(so).len() && (#[trigger] self.adj(so)[i]).src_port == src
                            && self.adj(so)[i].dst_port == dst;
                    old(self).adj(so).lemma_filter_pred(keep_not_pair::<PT>(src, dst), i);
                }
            }
        }
        Ok(())
    }

    /// Set the intrinsic delay of a node.
    pub fn set_delay(&mut self, node: NodeRef, delay: u64) -> (r: Result<(), Error>)
        requires
            old(self).wf(),
        ensures
            final(self).wf(),
            r == (if old(self).node_live(node.0 as int) {
                Ok::<(), Error>(())
            } else {
                Err::<(), Error>(Error::NodeDoesNotExist)
            }),
            !old(self).node_live(node.0 as int) ==> *final(self) == *old(self),
            old(self).node_live(node.0 as int) ==> ({
                &&& final(self).delays@ == old(self).delays@.update(node.0 as int, delay)
                &&& final(self).edges@ == old(self).edges@
                &&& final(self).ports@ == old(self).ports@
                &&& final(self).node_identifiers@ == old(self).node_identifiers@
                &&& final(self).free_nodes@ == old(self).free_nodes@
                &&& Self::same_ports_side(*old(self), *final(self))
            }),
    {
        self.node_check(node)?;
        self.delays.set(node.0, delay);
        proof {
            lemma_wf_ignores_decorations(*old(self), *self);
        }
        Ok(())
    }

    /// Read the identifier of a live port.
    pub fn port_ident(&self, port: PortRef) -> (r: Result<&P, Error>)
        requires
            self.wf(),
        ensures
            r == (if self.port_live(port.0 as int) {
                Ok::<&P, Error>(&self.port_identifiers@[port.0 as int])
            } else {
                Err::<&P, Error>(Error::PortDoesNotExist)
            }),
    {
        self.port_check(port)?;
        Ok(&self.port_identifiers[port.0])
    }

    /// Read the identifier of a live node.
    pub fn node_ident(&self, node: NodeRef) -> (r: Result<&N, Error>)
        requires
            self.wf(),
        ensures
            r == (if self.node_live(node.0 as int) {
                Ok::<&N, Error>(&self.node_identifiers@[node.0 as int])
            } else {
                Err::<&N, Error>(Error::NodeDoesNotExist)
            }),
    {
        self.node_check(node)?;
        Ok(&self.node_identifiers[node.0])
    }

    /// Replace the identifier of a live port.
    pub fn set_port_ident(&mut self, port: PortRef, ident: P) -> (r: Result<(), Error>)
        requires
            old(self).wf(),
        ensures
            final(self).wf(),
            r == (if old(self).port_live(port.0 as int) {
                Ok::<(), Error>(())
            } else {
                Err::<(), Error>(Error::PortDoesNotExist)
            }),
            !old(self).port_live(port.0 as int) ==> *final(self) == *old(self),
            old(self).port_live(port.0 as int) ==> ({
                &&& final(self).port_identifiers@ == old(self).port_identifiers@.update(
                    port.0 as int,
                    ident,
                )
                &&& final(self).edges@ == old(self).edges@
                &&& final(self).ports@ == old(self).ports@
                &&& final(self).delays@ == old(self).delays@
                &&& final(self).node_identifiers@ == old(self).node_identifiers@
                &&& final(self).free_nodes@ == old(self).free_nodes@
                &&& final(self).free_ports@ == old(self).free_ports@
                &&& final(self).port_data@ == old(self).port_data@
            }),
    {
        self.port_check(port)?;
        self.port_identifiers.set(port.0, ident);
        proof {
            lemma_wf_ignores_decorations(*old(self), *self);
        }
        Ok(())
    }

    /// Replace the identifier of a live node.
    pub fn set_node_ident(&mut self, node: NodeRef, ident: N) -> (r: Result<(), Error>)
        requires
            old(self).wf(),
        ensures
            final(self).wf(),
            r == (if old(self).node_live(node.0 as int) {
                Ok::<(), Error>(())
            } else {
                Err::<(), Error>(Error::NodeDoesNotExist)
            }),
            !old(self).node_live(node.0 as int) ==> *final(self) == *old(self),
            old(self).node_live(node.0 as int) ==> ({
                &&& final(self).node_identifiers@ == old(self).node_identifiers@.update(
                    node.0 as int,
                    ident,
                )
                &&& final(self).edges@ == old(self).edges@
                &&& final(self).ports@ == old(self).ports@
                &&& final(self).delays@ == old(self).delays@
                &&& final(self).free_nodes@ == old(self).free_nodes@
                &&& Self::same_ports_side(*old(self), *final(self))
            }),
    {
        self.node_check(node)?;
        self.node_identifiers.set(node.0, ident);
        proof {
            lemma_wf_ignores_decorations(*old(self), *self);
        }
        Ok(())
    }
}

/// A copy of `v` without the edges touching port `p`.
fn edges_without_port<PT: PortType>(v: &Vec<Edge<PT>>, p: PortRef) -> (r: Vec<Edge<PT>>)
    ensures
        r@ == v@.filter(keep_not_port::<PT>(p)),
{
    let pred = Ghost(keep_not_port::<PT>(p));
    let mut r: Vec<Edge<PT>> = Vec::new();
    let mut i: usize = 0;
    proof {
        assert(v@.subrange(0, 0) =~= Seq::<Edge<PT>>::empty());
        assert(Seq::<Edge<PT>>::empty().filter(pred@) =~= Seq::<Edge<PT>>::empty()) by {
            reveal(Seq::filter);
        }
    }
    while i < v.len()
        invariant
            0 <= i <= v@.len(),
            r@ == v@.subrange(0, i as int).filter(pred@),
        decreases v@.len() - i,
    {
        let e = v[i];
        proof {
            crate::seq_lemmas::lemma_filter_take_step(v@, i as int, pred@);
        }
        if !(e.src_port == p || e.dst_port == p) {
            proof {
                assert(pred@(e));
            }
            r.push(e);
        } else {
            proof {
                assert(!pred@(e));
            }
        }
        i = i + 1;
    }
    proof {
        crate::seq_lemmas::lemma_filter_take_all(v@, pred@);
    }
    r
}

/// A copy of `v` without the edges whose nodes include `n`.
fn edges_without_node<PT: PortType>(v: &Vec<Edge<PT>>, n: NodeRef) -> (r: Vec<Edge<PT>>)
    ensures
        r@ == v@.filter(keep_not_node::<PT>(n)),
{
    let pred = Ghost(keep_not_node::<PT>(n));
    let mut r: Vec<Edge<PT>> = Vec::new();
    let mut i: usize = 0;
    proof {
        assert(v@.subrange(0, 0) =~= Seq::<Edge<PT>>::empty());
        assert(Seq::<Edge<PT>>::empty().filter(pred@) =~= Seq::<Edge<PT>>::empty()) by {
            reveal(Seq::filter);
        }
    }
    while i < v.len()
        invariant
            0 <= i <= v@.len(),
            r@ == v@.subrange(0, i as int).filter(pred@),
        decreases v@.len() - i,
    {
        let e = v[i];
        proof {
            crate::seq_lemmas::lemma_filter_take_step(v@, i as int, pred@);
        }
        if !(e.src_node == n || e.dst_node == n) {
            proof {
                assert(pred@(e));
            }
            r.push(e);
        } else {
            proof {
                assert(!pred@(e));
            }
        }
        i = i + 1;
    }
    proof {
        crate::seq_lemmas::lemma_filter_take_all(v@, pred@);
    }
    r
}

/// A copy of `v` without the edge from `sp` to `dp`.
fn edges_without_pair<PT: PortType>(v: &Vec<Edge<PT>>, sp: PortRef, dp: PortRef) -> (r: Vec<
    Edge<PT>,
>)
    ensures
        r@ == v@.filter(keep_not_pair::<PT>(sp, dp)),
{
    let pred = Ghost(keep_not_pair::<PT>(sp, dp));
    let mut r: Vec<Edge<PT>> = Vec::new();
    let mut i: usize = 0;
    proof {
        assert(v@.subrange(0, 0) =~= Seq::<Edge<PT>>::empty());
        assert(Seq::<Edge<PT>>::empty().filter(pred@) =~= Seq::<Edge<PT>>::empty()) by {
            reveal(Seq::filter);
        }
    }
    while i < v.len()
        invariant
            0 <= i <= v@.len(),
            r@ == v@.subrange(0, i as int).filter(pred@),
        decreases v@.len() - i,
    {
        let e = v[i];
        proof {
            crate::seq_lemmas::lemma_filter_take_step(v@, i as int, pred@);
        }
        if !(e.src_port == sp && e.dst_port == dp) {
            proof {
                assert(pred@(e));
            }
            r.push(e);
        } else {
            proof {
                assert(!pred@(e));
            }
        }
        i = i + 1;
    }
    proof {
        crate::seq_lemmas::lemma_filter_take_all(v@, pred@);
    }
    r
}

/// A copy of `v` without the port `p`.
fn ports_without(v: &Vec<PortRef>, p: PortRef) -> (r: Vec<PortRef>)
    ensures
        r@ == v@.filter(keep_not::<PortRef>(p)),
{
    let pred = Ghost(keep_not::<PortRef>(p));
    let mut r: Vec<PortRef> = Vec::new();
    let mut i: usize = 0;
    proof {
        assert(v@.subrange(0, 0) =~= Seq::<PortRef>::empty());
        assert(Seq::<PortRef>::empty().filter(pred@) =~= Seq::<PortRef>::empty()) by {
            reveal(Seq::filter);
        }
    }
    while i < v.len()
        invariant
            0 <= i <= v@.len(),
            r@ == v@.subrange(0, i as int).filter(pred@),
        decreases v@.len() - i,
    {
        let q = v[i];
        proof {
            crate::seq_lemmas::lemma_filter_take_step(v@, i as int, pred@);
        }
        if !(q == p) {
            proof {
                assert(pred@(q));
            }
            r.push(q);
        } else {
            proof {
                assert(!pred@(q));
            }
        }
        i = i + 1;
    }
    proof {
        crate::seq_lemmas::lemma_filter_take_all(v@, pred@);
    }
    r
}

/// Well-formedness does not depend on delays or identifiers.
proof fn lemma_wf_ignores_decorations<N, P, PT: PortType>(g1: Graph<N, P, PT>, g2: Graph<N, P, PT>)
    requires
        g1.wf(),
        g2.edges@ == g1.edges@,
        g2.ports@ == g1.ports@,
        g2.delays@.len() == g1.delays@.len(),
        g2.node_identifiers@.len() == g1.node_identifiers@.len(),
        g2.port_identifiers@.len() == g1.port_identifiers@.len(),
        g2.port_data@ == g1.port_data@,
        g2.free_nodes@ == g1.free_nodes@,
        g2.free_ports@ == g1.free_ports@,
    ensures
        g2.wf(),
{
    assert(forall|n: int| g2.adj(n) == g1.adj(n));
    assert(forall|n: int| g2.node_ports(n) == g1.node_ports(n));
    assert(forall|n: int| g2.node_live(n) == g1.node_live(n));
    assert(forall|p: int| g2.port_live(p) == g1.port_live(p));
    assert(forall|a: int, b: int| #[trigger] g2.has_edge(a, b) ==> g1.has_edge(a, b));
    lemma_acyclic_mono(g1, g2);
}

/// Filtering every adjacency list by one predicate `keep` preserves the
/// edge invariants and acyclicity, provided the endpoints of every kept
/// edge stay live.
proof fn lemma_wf_edges_after_filter<N, P, PT: PortType>(
    g1: Graph<N, P, PT>,
    g2: Graph<N, P, PT>,
    keep: spec_fn(Edge<PT>) -> bool,
)
    requires
        g1.wf(),
        g2.node_count() == g1.node_count(),
        g2.port_count() == g1.port_count(),
        g2.port_data@ == g1.port_data@,
        forall|k: int| 0 <= k < g1.node_count() ==> g2.adj(k) == g1.adj(k).filter(keep),
        forall|n: int, i: int|
            0 <= n < g1.node_count() && 0 <= i < g1.adj(n).len() && keep(#[trigger] g1.adj(n)[i])
                ==> g2.port_live(g1.adj(n)[i].src_port.0 as int) && g2.port_live(
                g1.adj(n)[i].dst_port.0 as int,
            ),
    ensures
        g2.wf_edges(),
        g2.acyclic(),
        forall|n: int| 0 <= n < g1.node_count() ==> g2.adj(n).len() <= g1.adj(n).len(),
{
    assert forall|n: int| 0 <= n < g1.node_count() implies g2.adj(n).len() <= g1.adj(n).len() by {
        g1.adj(n).lemma_filter_len(keep);
    }
    assert forall|n: int, i: int|
        0 <= n < g2.node_count() && 0 <= i < g2.adj(n).len() implies {
        let e = #[trigger] g2.adj(n)[i];
        &&& g2.edge_wf(e)
        &&& (e.src_node.0 == n || e.dst_node.0 == n)
        &&& g2.adj(e.src_node.0 as int).contains(e)
        &&& g2.adj(e.dst_node.0 as int).contains(e)
    } by {
        let e = g2.adj(n)[i];
        g1.adj(n).lemma_filter_pred(keep, i);
        assert(g2.adj(n).contains(e));
        g1.adj(n).lemma_filter_contains_rev(keep, e);
        let k = choose|k: int| 0 <= k < g1.adj(n).len() && g1.adj(n)[k] == e;
        assert(g1.edge_wf(e));
        assert(keep(g1.adj(n)[k]));
        assert(g2.port_live(e.src_port.0 as int) && g2.port_live(e.dst_port.0 as int));
        let sn = e.src_node.0 as int;
        let dn = e.dst_node.0 as int;
        assert(g1.port_live(e.src_port.0 as int));
        assert(g1.node_live(g1.port_owner(e.src_port.0 as int)));
        assert(g1.port_live(e.dst_port.0 as int));
        assert(g1.node_live(g1.port_owner(e.dst_port.0 as int)));
        assert(0 <= sn < g1.node_count() && 0 <= dn < g1.node_count());
        assert(g1.adj(sn).contains(e));
        let ks = choose|ks: int| 0 <= ks < g1.adj(sn).len() && g1.adj(sn)[ks] == e;
        g1.adj(sn).lemma_filter_contains(keep, ks);
        assert(g2.adj(sn).contains(e));
        assert(g1.adj(dn).contains(e));
        let kd = choose|kd: int| 0 <= kd < g1.adj(dn).len() && g1.adj(dn)[kd] == e;
        g1.adj(dn).lemma_filter_contains(keep, kd);
        assert(g2.adj(dn).contains(e));
    }
    assert forall|n: int|
        0 <= n < g2.node_count() implies crate::seq_lemmas::distinct_by(
        #[trigger] g2.adj(n),
        pair_key::<PT>(),
    ) by {
        crate::seq_lemmas::lemma_filter_distinct_by(g1.adj(n), keep, pair_key::<PT>());
    }
    assert forall|a: int, b: int| #[trigger] g2.has_edge(a, b) implies g1.has_edge(a, b) by {
        let i = choose|i: int|
            0 <= i < g2.adj(a).len() && (#[trigger] g2.adj(a)[i]).src_node.0 == a
                && g2.adj(a)[i].dst_node.0 == b;
        let e = g2.adj(a)[i];
        g1.adj(a).lemma_filter_contains_rev(keep, e);
        assert(g2.adj(a).contains(e));
        let k = choose|k: int| 0 <= k < g1.adj(a).len() && g1.adj(a)[k] == e;
        assert(g1.adj(a)[k].src_node.0 == a && g1.adj(a)[k].dst_node.0 == b);
    }
    lemma_acyclic_mono(g1, g2);
}

/// Adding a port (on a recycled or fresh handle) keeps the graph well formed.
proof fn lemma_wf_after_port_add<N, P, PT: PortType>(
    g1: Graph<N, P, PT>,
    g2: Graph<N, P, PT>,
    node: NodeRef,
    p: PortRef,
)
    requires
        g1.wf(),
        g1.node_live(node.0 as int),
        !g1.port_live(p.0 as int),
        (p.0 as int) < g2.port_count(),
        g1.port_count() <= g2.port_count() <= g1.port_count() + 1,
        g2.port_count() == g1.port_count() + 1 ==> p.0 == g1.port_count(),
        g2.edges@ == g1.edges@,
        g2.delays@ == g1.delays@,
        g2.node_identifiers@ == g1.node_identifiers@,
        g2.free_nodes@ == g1.free_nodes@,
        g2.ports@.len() == g1.ports@.len(),
        g2.node_ports(node.0 as int) == g1.node_ports(node.0 as int).push(p),
        forall|m: int|
            0 <= m < g1.node_count() && m != node.0 ==> g2.ports@[m] == g1.ports@[m],
        g2.port_identifiers@.len() == g2.port_count(),
        g2.port_data@[p.0 as int].0 == node,
        forall|q: int|
            0 <= q < g1.port_count() && q != p.0 ==> g2.port_data@[q] == g1.port_data@[q],
        forall|x: PortRef|
            #[trigger] g2.free_ports@.contains(x) ==> g1.free_ports@.contains(x) && x != p,
        forall|x: PortRef|
            g1.free_ports@.contains(x) && x != p ==> #[trigger] g2.free_ports@.contains(x),
        g2.free_ports@.no_duplicates(),
    ensures
        g2.wf(),
        g2.port_live(p.0 as int),
        forall|q: int|
            0 <= q < g1.port_count() && q != p.0 ==> (#[trigger] g2.port_live(q) <==> g1.port_live(
                q,
            )),
{
    let ni = node.0 as int;
    let pi = p.0 as int;
    assert(forall|m: int| 0 <= m < g1.node_count() && m != ni ==> g2.node_ports(m) == g1.node_ports(m));
    assert(forall|m: int| g2.node_live(m) == g1.node_live(m));
    assert(PortRef(pi as usize) == p);
    assert(!g2.free_ports@.contains(p)) by {
        if g2.free_ports@.contains(p) {
            assert(false);
        }
    }
    assert(g2.port_live(pi));
    assert forall|q: int|
        0 <= q < g1.port_count() && q != pi implies (#[trigger] g2.port_live(q) <==> g1.port_live(
        q,
    )) by {
        assert(g1.port_data.len() as int == g1.port_count());
        let qr = PortRef(q as usize);
        assert(qr.0 as int == q);
        assert(qr != p);
        if g1.port_live(q) {
            if g2.free_ports@.contains(qr) {
                assert(g1.free_ports@.contains(qr));
            }
        }
        if g2.port_live(q) {
            if g1.free_ports@.contains(qr) {
                assert(g2.free_ports@.contains(qr));
            }
        }
    }
    assert(g2.wf_lens());
    assert(g2.wf_free()) by {
        assert forall|i: int|
            0 <= i < g2.free_ports@.len() implies (#[trigger] g2.free_ports@[i]).0
            < g2.port_count() by {
            let x = g2.free_ports@[i];
            assert(g2.free_ports@.contains(x));
            assert(g1.free_ports@.contains(x));
            let k = choose|k: int| 0 <= k < g1.free_ports@.len() && g1.free_ports@[k] == x;
            assert(g1.free_ports@[k].0 < g1.port_count());
        }
    }
    assert(g2.wf_ports()) by {
        assert forall|n: int, i: int|
            0 <= n < g2.node_count() && 0 <= i < g2.node_ports(n).len() implies {
            let q = (#[trigger] g2.node_ports(n)[i]).0 as int;
            g2.port_live(q) && g2.port_owner(q) == n
        } by {
            let qr = g2.node_ports(n)[i];
            if n == ni && i == g2.node_ports(n).len() - 1 {
                assert(qr == p);
            } else {
                assert(qr == g1.node_ports(n)[i]);
                assert(g1.port_live(qr.0 as int) && g1.port_owner(qr.0 as int) == n);
                assert(qr != p);
            }
        }
        assert forall|n: int|
            0 <= n < g2.node_count() implies (#[trigger] g2.node_ports(n)).no_duplicates() by {
            if n == ni {
                assert(!g1.node_ports(ni).contains(p)) by {
                    if g1.node_ports(ni).contains(p) {
                        let k = choose|k: int|
                            0 <= k < g1.node_ports(ni).len() && g1.node_ports(ni)[k] == p;
                        assert(g1.port_live(g1.node_ports(ni)[k].0 as int));
                    }
                }
                assert forall|i: int, j: int|
                    0 <= i < j < g2.node_ports(ni).len() implies g2.node_ports(ni)[i]
                    != g2.node_ports(ni)[j] by {
                    if j < g2.node_ports(ni).len() - 1 {
                        assert(g2.node_ports(ni)[i] == g1.node_ports(ni)[i]);
                        assert(g2.node_ports(ni)[j] == g1.node_ports(ni)[j]);
                    } else {
                        assert(g2.node_ports(ni)[j] == p);
                        assert(g2.node_ports(ni)[i] == g1.node_ports(ni)[i]);
                        assert(g1.node_ports(ni).contains(g1.node_ports(ni)[i]));
                    }
                }
            }
        }
        assert forall|q: int| #[trigger] g2.port_live(q) implies g2.node_live(g2.port_owner(q))
            && g2.node_ports(g2.port_owner(q)).contains(PortRef(q as usize)) by {
            if q == pi {
                assert(g2.port_owner(q) == ni);
                assert(g2.node_ports(ni)[g2.node_ports(ni).len() - 1] == p);
                assert(g2.port_data.len() as int == g2.port_count());
                assert(PortRef(q as usize) == p);
            } else {
                assert(g1.port_live(q));
                let owner = g1.port_owner(q);
                assert(g1.node_ports(owner).contains(PortRef(q as usize)));
                let k = choose|k: int|
                    0 <= k < g1.node_ports(owner).len() && g1.node_ports(owner)[k] == PortRef(
                        q as usize,
                    );
                assert(g2.node_ports(owner)[k] == PortRef(q as usize));
            }
        }
    }
    assert(g2.wf_cleared()) by {
        assert forall|m: int|
            0 <= m < g2.node_count() && !(#[trigger] g2.node_live(m)) implies g2.adj(m).len() == 0
            && g2.node_ports(m).len() == 0 by {
            assert(!g1.node_live(m));
            assert(m != ni);
            assert(g2.ports@[m] == g1.ports@[m]);
            assert(g2.adj(m) == g1.adj(m));
        }
    }
    assert(g2.wf_edges()) by {
        assert(forall|n: int| g2.adj(n) == g1.adj(n));
        assert forall|n: int, i: int|
            0 <= n < g2.node_count() && 0 <= i < g2.adj(n).len() implies {
            let e = #[trigger] g2.adj(n)[i];
            &&& g2.edge_wf(e)
            &&& (e.src_node.0 == n || e.dst_node.0 == n)
            &&& g2.adj(e.src_node.0 as int).contains(e)
            &&& g2.adj(e.dst_node.0 as int).contains(e)
        } by {
            let e = g1.adj(n)[i];
            assert(g1.edge_wf(e));
            assert(e.src_port.0 != p.0 && e.dst_port.0 != p.0);
        }
    }
    assert(forall|a: int, b: int| #[trigger] g2.has_edge(a, b) ==> g1.has_edge(a, b)) by {
        assert(forall|n: int| g2.adj(n) == g1.adj(n));
    }
    lemma_acyclic_mono(g1, g2);
}

/// Is some edge from `sp` to `dp` stored in `v`?
pub(crate) fn find_pair<PT: PortType>(v: &Vec<Edge<PT>>, sp: PortRef, dp: PortRef) -> (r: bool)
    ensures
        r == exists|i: int|
            0 <= i < v@.len() && (#[trigger] v@[i]).src_port == sp && v@[i].dst_port == dp,
{
    let mut i: usize = 0;
    while i < v.len()
        invariant
            0 <= i <= v@.len(),
            forall|j: int| 0 <= j < i ==> !((#[trigger] v@[j]).src_port == sp && v@[j].dst_port == dp),
        decreases v@.len() - i,
    {
        let e = v[i];
        if e.src_port == sp && e.dst_port == dp {
            proof {
                assert((v@[i as int]).src_port == sp && v@[i as int].dst_port == dp);
            }
            return true;
        }
        i = i + 1;
    }
    false
}

/// Removing one edge from both endpoint lists keeps the graph well formed.
proof fn lemma_wf_after_disconnect<N, P, PT: PortType>(
    g1: Graph<N, P, PT>,
    g2: Graph<N, P, PT>,
    src: PortRef,
    dst: PortRef,
)
    requires
        g1.wf(),
        g2.ports@ == g1.ports@,
        g2.delays@ == g1.delays@,
        g2.port_data@ == g1.port_data@,
        g2.port_identifiers@ == g1.port_identifiers@,
        g2.node_identifiers@ == g1.node_identifiers@,
        g2.free_nodes@ == g1.free_nodes@,
        g2.free_ports@ == g1.free_ports@,
        g2.edges@.len() == g1.edges@.len(),
        forall|k: int|
            0 <= k < g1.node_count() ==> #[trigger] g2.adj(k) == g1.adj(k).filter(
                keep_not_pair::<PT>(src, dst),
            ),
    ensures
        g2.wf(),
{
    assert(forall|m: int| g2.node_live(m) == g1.node_live(m));
    assert(forall|p: int| g2.port_live(p) == g1.port_live(p));
    assert(forall|m: int| 0 <= m < g1.node_count() ==> g2.node_ports(m) == g1.node_ports(m));
    assert(g2.wf_lens());
    assert(g2.wf_free());
    assert(g2.wf_ports());
    assert(g2.wf_cleared()) by {
        assert forall|m: int|
            0 <= m < g2.node_count() && !(#[trigger] g2.node_live(m)) implies g2.adj(m).len() == 0
            && g2.node_ports(m).len() == 0 by {
            assert(!g1.node_live(m));
            g1.adj(m).lemma_filter_len(keep_not_pair::<PT>(src, dst));
        }
    }
    assert forall|m: int, i: int|
        0 <= m < g1.node_count() && 0 <= i < g1.adj(m).len() && keep_not_pair::<PT>(src, dst)(
            #[trigger] g1.adj(m)[i],
        ) implies g2.port_live(g1.adj(m)[i].src_port.0 as int) && g2.port_live(
        g1.adj(m)[i].dst_port.0 as int,
    ) by {
        let e = g1.adj(m)[i];
        assert(g1.edge_wf(e));
    }
    lemma_wf_edges_after_filter(g1, g2, keep_not_pair::<PT>(src, dst));
}

/// Deleting a port keeps the graph well formed.
proof fn lemma_wf_after_delete_port<N, P, PT: PortType>(
    g1: Graph<N, P, PT>,
    g2: Graph<N, P, PT>,
    p: PortRef,
    owner: NodeRef,
)
    requires
        g1.wf(),
        g1.port_live(p.0 as int),
        owner == g1.port_data@[p.0 as int].0,
        g2.free_ports@ == g1.free_ports@.push(p),
        g2.port_data@ == g1.port_data@,
        g2.port_identifiers@ == g1.port_identifiers@,
        g2.delays@ == g1.delays@,
        g2.node_identifiers@ == g1.node_identifiers@,
        g2.free_nodes@ == g1.free_nodes@,
        g2.edges@.len() == g1.edges@.len(),
        forall|k: int|
            0 <= k < g1.node_count() ==> #[trigger] g2.adj(k) == g1.adj(k).filter(
                keep_not_port::<PT>(p),
            ),
        g2.ports@.len() == g1.ports@.len(),
        g2.node_ports(owner.0 as int) == g1.node_ports(owner.0 as int).filter(
            keep_not::<PortRef>(p),
        ),
        forall|m: int|
            0 <= m < g1.node_count() && m != owner.0 ==> g2.ports@[m] == g1.ports@[m],
    ensures
        g2.wf(),
        !g2.port_live(p.0 as int),
        forall|q: int|
            0 <= q < g1.port_count() && q != p.0 ==> (#[trigger] g2.port_live(q) <==> g1.port_live(
                q,
            )),
        forall|n: int|
            0 <= n < g1.node_count() ==> g2.node_ports(n) == g1.node_ports(n).filter(
                keep_not::<PortRef>(p),
            ),
{
    let pi = p.0 as int;
    let oi = owner.0 as int;
    assert(PortRef(pi as usize) == p);
    assert(g1.node_live(oi));
    assert(0 <= oi < g1.node_count());
    // membership of the free list after the push
    assert forall|x: PortRef| #[trigger] g2.free_ports@.contains(x) implies g1.free_ports@.contains(
        x,
    ) || x == p by {
        crate::seq_lemmas::lemma_push_contains(g1.free_ports@, p, x);
    }
    assert forall|x: PortRef|
        g1.free_ports@.contains(x) || x == p implies #[trigger] g2.free_ports@.contains(x) by {
        crate::seq_lemmas::lemma_push_contains(g1.free_ports@, p, x);
    }
    assert(!g2.port_live(pi));
    assert forall|q: int|
        0 <= q < g1.port_count() && q != pi implies (#[trigger] g2.port_live(q) <==> g1.port_live(
        q,
    )) by {
        assert(g1.port_data.len() as int == g1.port_count());
        let qr = PortRef(q as usize);
        assert(qr.0 as int == q);
        assert(qr != p);
    }
    // every other node's port list is untouched by the filter
    assert forall|n: int|
        0 <= n < g1.node_count() implies g2.node_ports(n) == g1.node_ports(n).filter(
        keep_not::<PortRef>(p),
    ) by {
        if n != oi {
            assert forall|i: int|
                0 <= i < g1.node_ports(n).len() implies keep_not::<PortRef>(p)(
                #[trigger] g1.node_ports(n)[i],
            ) by {
                let q = g1.node_ports(n)[i];
                assert(g1.port_live(q.0 as int) && g1.port_owner(q.0 as int) == n);
                if q == p {
                    assert(g1.port_owner(pi) == oi);
                }
            }
            crate::seq_lemmas::lemma_filter_all(g1.node_ports(n), keep_not::<PortRef>(p));
        }
    }
    assert(g2.wf_lens());
    assert(g2.wf_free()) by {
        assert(!g1.free_ports@.contains(p));
        assert forall|i: int, j: int|
            0 <= i < j < g2.free_ports@.len() implies g2.free_ports@[i] != g2.free_ports@[j] by {
            if j < g2.free_ports@.len() - 1 {
                assert(g2.free_ports@[i] == g1.free_ports@[i]);
                assert(g2.free_ports@[j] == g1.free_ports@[j]);
            } else {
                assert(g2.free_ports@[j] == p);
                assert(g2.free_ports@[i] == g1.free_ports@[i]);
                assert(g1.free_ports@.contains(g1.free_ports@[i]));
            }
        }
        assert forall|i: int|
            0 <= i < g2.free_ports@.len() implies (#[trigger] g2.free_ports@[i]).0
            < g2.port_count() by {
            if i < g2.free_ports@.len() - 1 {
                assert(g2.free_ports@[i] == g1.free_ports@[i]);
            } else {
                assert(g2.free_ports@[i] == p);
            }
        }
    }
    assert(g2.wf_ports()) by {
        assert forall|n: int, i: int|
            0 <= n < g2.node_count() && 0 <= i < g2.node_ports(n).len() implies {
            let q = (#[trigger] g2.node_ports(n)[i]).0 as int;
            g2.port_live(q) && g2.port_owner(q) == n
        } by {
            let qr = g2.node_ports(n)[i];
            g1.node_ports(n).lemma_filter_pred(keep_not::<PortRef>(p), i);
            assert(qr != p);
            assert(g2.node_ports(n).contains(qr));
            g1.node_ports(n).lemma_filter_contains_rev(keep_not::<PortRef>(p), qr);
            let k = choose|k: int| 0 <= k < g1.node_ports(n).len() && g1.node_ports(n)[k] == qr;
            assert(g1.port_live(qr.0 as int) && g1.port_owner(qr.0 as int) == n);
            assert(qr.0 as int != pi) by {
                if qr.0 as int == pi {
                    assert(g1.port_data.len() as int == g1.port_count());
                    assert(qr == p);
                }
            }
        }
        assert forall|n: int|
            0 <= n < g2.node_count() implies (#[trigger] g2.node_ports(n)).no_duplicates() by {
            crate::seq_lemmas::lemma_filter_no_duplicates(g1.node_ports(n), keep_not::<PortRef>(p));
        }
        assert forall|q: int| #[trigger] g2.port_live(q) implies g2.node_live(g2.port_owner(q))
            && g2.node_ports(g2.port_owner(q)).contains(PortRef(q as usize)) by {
            assert(q != pi);
            assert(g1.port_live(q));
            let qo = g1.port_owner(q);
            assert(g1.node_live(qo));
            assert(g1.node_ports(qo).contains(PortRef(q as usize)));
            let k = choose|k: int|
                0 <= k < g1.node_ports(qo).len() && g1.node_ports(qo)[k] == PortRef(q as usize);
            assert(keep_not::<PortRef>(p)(g1.node_ports(qo)[k])) by {
                assert(g1.port_data.len() as int == g1.port_count());
            }
            g1.node_ports(qo).lemma_filter_contains(keep_not::<PortRef>(p), k);
        }
    }
    assert(g2.wf_cleared()) by {
        assert forall|m: int|
            0 <= m < g2.node_count() && !(#[trigger] g2.node_live(m)) implies g2.adj(m).len() == 0
            && g2.node_ports(m).len() == 0 by {
            assert(!g1.node_live(m));
            assert(g1.adj(m).len() == 0 && g1.node_ports(m).len() == 0);
            g1.adj(m).lemma_filter_len(keep_not_port::<PT>(p));
            g1.node_ports(m).lemma_filter_len(keep_not::<PortRef>(p));
        }
    }
    assert forall|n: int, i: int|
        0 <= n < g1.node_count() && 0 <= i < g1.adj(n).len() && keep_not_port::<PT>(p)(
            #[trigger] g1.adj(n)[i],
        ) implies g2.port_live(g1.adj(n)[i].src_port.0 as int) && g2.port_live(
        g1.adj(n)[i].dst_port.0 as int,
    ) by {
        let e = g1.adj(n)[i];
        assert(g1.edge_wf(e));
        assert(e.src_port != p && e.dst_port != p);
        assert(g1.port_live(e.src_port.0 as int) && g1.port_live(e.dst_port.0 as int));
    }
    lemma_wf_edges_after_filter(g1, g2, keep_not_port::<PT>(p));
}

/// Deleting a node keeps the graph well formed.
proof fn lemma_wf_after_delete_node<N, P, PT: PortType>(
    g1: Graph<N, P, PT>,
    g2: Graph<N, P, PT>,
    n: NodeRef,
)
    requires
        g1.wf(),
        g1.node_live(n.0 as int),
        g2.free_nodes@ == g1.free_nodes@.push(n),
        g2.free_ports@ == g1.free_ports@ + g1.node_ports(n.0 as int),
        g2.port_data@ == g1.port_data@,
        g2.port_identifiers@ == g1.port_identifiers@,
        g2.delays@ == g1.delays@,
        g2.node_identifiers@ == g1.node_identifiers@,
        g2.ports@.len() == g1.ports@.len(),
        g2.node_ports(n.0 as int).len() == 0,
        forall|m: int|
            0 <= m < g1.node_count() && m != n.0 ==> g2.ports@[m] == g1.ports@[m],
        g2.edges@.len() == g1.edges@.len(),
        forall|k: int|
            0 <= k < g1.node_count() ==> #[trigger] g2.adj(k) == g1.adj(k).filter(
                keep_not_node::<PT>(n),
            ),
    ensures
        g2.wf(),
        !g2.node_live(n.0 as int),
        g2.adj(n.0 as int).len() == 0,
        forall|q: int|
            0 <= q < g1.port_count() ==> ((#[trigger] g2.port_live(q)) <==> (g1.port_live(q)
                && g1.port_owner(q) != n.0)),
        forall|m: int|
            0 <= m < g1.node_count() && m != n.0 ==> (g2.node_live(m) <==> g1.node_live(m)),
{
    let ni = n.0 as int;
    assert(NodeRef(ni as usize) == n);
    // membership in the extended free lists
    assert forall|x: NodeRef| #[trigger] g2.free_nodes@.contains(x) implies g1.free_nodes@.contains(
        x,
    ) || x == n by {
        crate::seq_lemmas::lemma_push_contains(g1.free_nodes@, n, x);
    }
    assert forall|x: NodeRef|
        g1.free_nodes@.contains(x) || x == n implies #[trigger] g2.free_nodes@.contains(x) by {
        crate::seq_lemmas::lemma_push_contains(g1.free_nodes@, n, x);
    }
    assert forall|x: PortRef| #[trigger] g2.free_ports@.contains(x) implies g1.free_ports@.contains(
        x,
    ) || g1.node_ports(ni).contains(x) by {
        crate::seq_lemmas::lemma_add_contains(g1.free_ports@, g1.node_ports(ni), x);
    }
    assert forall|x: PortRef|
        g1.free_ports@.contains(x) || g1.node_ports(ni).contains(x) implies #[trigger] g2.free_ports@.contains(
        x,
    ) by {
        crate::seq_lemmas::lemma_add_contains(g1.free_ports@, g1.node_ports(ni), x);
    }
    assert(!g2.node_live(ni));
    assert forall|m: int|
        0 <= m < g1.node_count() && m != ni implies (g2.node_live(m) <==> g1.node_live(m)) by {
        assert(g1.ports.len() as int == g1.node_count());
        let mr = NodeRef(m as usize);
        assert(mr.0 as int == m);
        assert(mr != n);
    }
    // a port stays live exactly when its owner is not the deleted node
    assert forall|q: int|
        0 <= q < g1.port_count() implies ((#[trigger] g2.port_live(q)) <==> (g1.port_live(q)
            && g1.port_owner(q) != ni)) by {
        assert(g1.port_data.len() as int == g1.port_count());
        let qr = PortRef(q as usize);
        assert(qr.0 as int == q);
        if g1.port_live(q) && g1.port_owner(q) != ni {
            assert(!g1.node_ports(ni).contains(qr)) by {
                if g1.node_ports(ni).contains(qr) {
                    let k = choose|k: int|
                        0 <= k < g1.node_ports(ni).len() && g1.node_ports(ni)[k] == qr;
                    assert(g1.port_owner(g1.node_ports(ni)[k].0 as int) == ni);
                }
            }
            assert(!g2.free_ports@.contains(qr));
        }
        if g2.port_live(q) {
            assert(!g1.free_ports@.contains(qr) && !g1.node_ports(ni).contains(qr));
            assert(g1.port_live(q));
            if g1.port_owner(q) == ni {
                assert(g1.node_ports(ni).contains(qr));
            }
        }
    }
    assert(g2.wf_lens());
    assert(g2.wf_free()) by {
        assert(!g1.free_nodes@.contains(n));
        assert forall|i: int, j: int|
            0 <= i < j < g2.free_nodes@.len() implies g2.free_nodes@[i] != g2.free_nodes@[j] by {
            if j < g2.free_nodes@.len() - 1 {
                assert(g2.free_nodes@[i] == g1.free_nodes@[i]);
                assert(g2.free_nodes@[j] == g1.free_nodes@[j]);
            } else {
                assert(g2.free_nodes@[j] == n);
                assert(g2.free_nodes@[i] == g1.free_nodes@[i]);
                assert(g1.free_nodes@.contains(g1.free_nodes@[i]));
            }
        }
        assert forall|i: int|
            0 <= i < g2.free_nodes@.len() implies (#[trigger] g2.free_nodes@[i]).0
            < g2.node_count() by {
            if i < g2.free_nodes@.len() - 1 {
                assert(g2.free_nodes@[i] == g1.free_nodes@[i]);
            } else {
                assert(g2.free_nodes@[i] == n);
            }
        }
        assert(g2.free_ports@.no_duplicates()) by {
            assert forall|x: PortRef| #[trigger] g1.node_ports(ni).contains(x) implies !g1.free_ports@.contains(
                x,
            ) by {
                let k = choose|k: int|
                    0 <= k < g1.node_ports(ni).len() && g1.node_ports(ni)[k] == x;
                assert(g1.port_live(g1.node_ports(ni)[k].0 as int));
                assert(PortRef(g1.node_ports(ni)[k].0 as int as usize) == x) by {
                    assert(g1.port_data.len() as int == g1.port_count());
                }
            }
            crate::seq_lemmas::lemma_no_dup_concat(g1.free_ports@, g1.node_ports(ni));
        }
        assert forall|i: int|
            0 <= i < g2.free_ports@.len() implies (#[trigger] g2.free_ports@[i]).0
            < g2.port_count() by {
            if i < g1.free_ports@.len() {
                assert(g2.free_ports@[i] == g1.free_ports@[i]);
            } else {
                let k = i - g1.free_ports@.len();
                assert(g2.free_ports@[i] == g1.node_ports(ni)[k]);
                assert(g1.port_live(g1.node_ports(ni)[k].0 as int));
            }
        }
    }
    assert(g2.wf_ports()) by {
        assert forall|m: int, i: int|
            0 <= m < g2.node_count() && 0 <= i < g2.node_ports(m).len() implies {
            let q = (#[trigger] g2.node_ports(m)[i]).0 as int;
            g2.port_live(q) && g2.port_owner(q) == m
        } by {
            assert(m != ni);
            assert(g2.node_ports(m) == g1.node_ports(m));
            let q = g1.node_ports(m)[i].0 as int;
            assert(g1.port_live(q) && g1.port_owner(q) == m);
        }
        assert forall|m: int|
            0 <= m < g2.node_count() implies (#[trigger] g2.node_ports(m)).no_duplicates() by {
            if m != ni {
                assert(g2.node_ports(m) == g1.node_ports(m));
            }
        }
        assert forall|q: int| #[trigger] g2.port_live(q) implies g2.node_live(g2.port_owner(q))
            && g2.node_ports(g2.port_owner(q)).contains(PortRef(q as usize)) by {
            assert(g1.port_live(q) && g1.port_owner(q) != ni);
            let qo = g1.port_owner(q);
            assert(g1.node_live(qo));
            assert(g2.node_ports(qo) == g1.node_ports(qo));
        }
    }
    assert(g2.wf_cleared()) by {
        assert forall|m: int|
            0 <= m < g2.node_count() && !(#[trigger] g2.node_live(m)) implies g2.adj(m).len() == 0
            && g2.node_ports(m).len() == 0 by {
            g1.adj(m).lemma_filter_len(keep_not_node::<PT>(n));
            if m != ni {
                assert(!g1.node_live(m));
                assert(g1.adj(m).len() == 0 && g1.node_ports(m).len() == 0);
                assert(g2.node_ports(m) == g1.node_ports(m));
            } else {
                assert(g2.adj(ni).len() == 0) by {
                    assert forall|i: int|
                        0 <= i < g1.adj(ni).len() implies !(keep_not_node::<PT>(n)(
                        #[trigger] g1.adj(ni)[i],
                    )) by {
                        assert(g1.adj(ni)[i].src_node.0 == ni || g1.adj(ni)[i].dst_node.0 == ni);
                    }
                    if g2.adj(ni).len() > 0 {
                        g1.adj(ni).lemma_filter_pred(keep_not_node::<PT>(n), 0);
                        assert(g2.adj(ni).contains(g2.adj(ni)[0]));
                        g1.adj(ni).lemma_filter_contains_rev(
                            keep_not_node::<PT>(n),
                            g2.adj(ni)[0],
                        );
                        let k = choose|k: int|
                            0 <= k < g1.adj(ni).len() && g1.adj(ni)[k] == g2.adj(ni)[0];
                        assert(!(keep_not_node::<PT>(n)(g1.adj(ni)[k])));
                    }
                }
            }
        }
    }
    assert(g2.adj(ni).len() == 0) by {
        assert(!g2.node_live(ni));
    }
    assert forall|m: int, i: int|
        0 <= m < g1.node_count() && 0 <= i < g1.adj(m).len() && keep_not_node::<PT>(n)(
            #[trigger] g1.adj(m)[i],
        ) implies g2.port_live(g1.adj(m)[i].src_port.0 as int) && g2.port_live(
        g1.adj(m)[i].dst_port.0 as int,
    ) by {
        let e = g1.adj(m)[i];
        assert(g1.edge_wf(e));
        assert(e.src_node != n && e.dst_node != n);
        assert(g1.port_owner(e.src_port.0 as int) == e.src_node.0 as int);
        assert(g1.port_owner(e.dst_port.0 as int) == e.dst_node.0 as int);
        assert(g1.port_live(e.src_port.0 as int) && g1.port_live(e.dst_port.0 as int));
    }
    lemma_wf_edges_after_filter(g1, g2, keep_not_node::<PT>(n));
}

/// Recycling a freed node handle keeps the graph well formed.
proof fn lemma_wf_after_node_recycle<N, P, PT: PortType>(
    g1: Graph<N, P, PT>,
    g2: Graph<N, P, PT>,
    n: NodeRef,
)
    requires
        g1.wf(),
        g1.free_nodes@.len() > 0,
        n == g1.free_nodes@.last(),
        (n.0 as int) < g1.node_count(),
        g2.free_nodes@ == g1.free_nodes@.drop_last(),
        g2.edges@ == g1.edges@.update(n.0 as int, g2.edges@[n.0 as int]),
        g2.adj(n.0 as int).len() == 0,
        g2.ports@ == g1.ports@.update(n.0 as int, g2.ports@[n.0 as int]),
        g2.node_ports(n.0 as int).len() == 0,
        g2.delays@.len() == g1.delays@.len(),
        g2.node_identifiers@.len() == g1.node_identifiers@.len(),
        g2.port_identifiers@ == g1.port_identifiers@,
        g2.port_data@ == g1.port_data@,
        g2.free_ports@ == g1.free_ports@,
    ensures
        g2.wf(),
{
    let ni = n.0 as int;
    assert(!g1.node_live(ni)) by {
        assert(g1.free_nodes@[g1.free_nodes@.len() - 1] == n);
    }
    assert(g1.adj(ni).len() == 0);
    assert(g1.node_ports(ni).len() == 0);
    assert(g2.node_count() == g1.node_count());
    assert(forall|m: int| 0 <= m < g1.node_count() && m != ni ==> g2.adj(m) == g1.adj(m));
    assert(forall|m: int|
        0 <= m < g1.node_count() && m != ni ==> g2.node_ports(m) == g1.node_ports(m));
    assert(g2.adj(ni) =~= g1.adj(ni));
    assert(g2.node_ports(ni) =~= g1.node_ports(ni));
    assert(forall|m: int| 0 <= m < g1.node_count() ==> g2.adj(m) == g1.adj(m));
    assert(forall|m: int| 0 <= m < g1.node_count() ==> g2.node_ports(m) == g1.node_ports(m));
    // the free list shrank, so liveness can only grow
    assert(g2.free_nodes@.no_duplicates());
    assert(forall|x: NodeRef| #[trigger] g2.free_nodes@.contains(x) ==> g1.free_nodes@.contains(x))
        by {
        assert forall|x: NodeRef| #[trigger] g2.free_nodes@.contains(x) implies g1.free_nodes@.contains(
            x,
        ) by {
            let k = choose|k: int| 0 <= k < g2.free_nodes@.len() && g2.free_nodes@[k] == x;
            assert(g1.free_nodes@[k] == x);
        }
    }
    assert(forall|m: int| g1.node_live(m) ==> g2.node_live(m));
    assert(forall|p: int| g2.port_live(p) == g1.port_live(p));
    assert(g2.wf_lens());
    assert(g2.wf_free());
    assert(g2.wf_ports()) by {
        assert forall|p: int| #[trigger] g2.port_live(p) implies g2.node_live(g2.port_owner(p))
            && g2.node_ports(g2.port_owner(p)).contains(PortRef(p as usize)) by {
            assert(g1.port_live(p));
            let owner = g1.port_owner(p);
            assert(g1.node_live(owner));
            assert(owner != ni);
            assert(g2.node_ports(owner) == g1.node_ports(owner));
        }
    }
    assert(g2.wf_cleared()) by {
        assert forall|m: int| 0 <= m < g2.node_count() && !(#[trigger] g2.node_live(m)) implies g2.adj(
            m,
        ).len() == 0 && g2.node_ports(m).len() == 0 by {
            assert(!g1.node_live(m)) by {
                if g1.node_live(m) {
                    assert(g2.node_live(m));
                }
            }
        }
    }
    assert(g2.wf_edges()) by {
        assert forall|m: int, i: int|
            0 <= m < g2.node_count() && 0 <= i < g2.adj(m).len() implies {
            let e = #[trigger] g2.adj(m)[i];
            &&& g2.edge_wf(e)
            &&& (e.src_node.0 == m || e.dst_node.0 == m)
            &&& g2.adj(e.src_node.0 as int).contains(e)
            &&& g2.adj(e.dst_node.0 as int).contains(e)
        } by {
            assert(m != ni);
            assert(g2.adj(m) == g1.adj(m));
            let e = g1.adj(m)[i];
            assert(g1.edge_wf(e));
            assert(g1.port_live(e.src_port.0 as int) && g1.port_live(e.dst_port.0 as int));
            assert(g1.node_live(e.src_node.0 as int) && g1.node_live(e.dst_node.0 as int));
            assert(e.src_node.0 != ni && e.dst_node.0 != ni);
            assert(g1.adj(e.src_node.0 as int).contains(e));
            assert(g1.adj(e.dst_node.0 as int).contains(e));
        }
    }
    assert(forall|a: int, b: int| #[trigger] g2.has_edge(a, b) ==> g1.has_edge(a, b)) by {
        assert forall|a: int, b: int| #[trigger] g2.has_edge(a, b) implies g1.has_edge(a, b) by {
            if a == ni {
                assert(g2.adj(a).len() == 0);
            } else {
                assert(g2.adj(a) == g1.adj(a));
            }
        }
    }
    lemma_acyclic_mono(g1, g2);
}

/// Appending a fresh node slot keeps the graph well formed.
proof fn lemma_wf_after_node_fresh<N, P, PT: PortType>(
    g1: Graph<N, P, PT>,
    g2: Graph<N, P, PT>,
    n: NodeRef,
)
    requires
        g1.wf(),
        g1.free_nodes@.len() == 0,
        n.0 == g1.node_count(),
        g2.free_nodes@ == g1.free_nodes@,
        g2.edges@ == g1.edges@.push(g2.edges@[n.0 as int]),
        g2.adj(n.0 as int).len() == 0,
        g2.ports@ == g1.ports@.push(g2.ports@[n.0 as int]),
        g2.node_ports(n.0 as int).len() == 0,
        g2.delays@.len() == g1.delays@.len() + 1,
        g2.node_identifiers@.len() == g1.node_identifiers@.len() + 1,
        g2.port_identifiers@ == g1.port_identifiers@,
        g2.port_data@ == g1.port_data@,
        g2.free_ports@ == g1.free_ports@,
    ensures
        g2.wf(),
{
    let ni = n.0 as int;
    assert(g2.node_count() == g1.node_count() + 1);
    assert(forall|m: int| 0 <= m < g1.node_count() ==> g2.adj(m) == g1.adj(m));
    assert(forall|m: int| 0 <= m < g1.node_count() ==> g2.node_ports(m) == g1.node_ports(m));
    assert(forall|m: int| 0 <= m < g1.node_count() ==> (g2.node_live(m) <==> g1.node_live(m)));
    assert(g2.node_live(ni));
    assert(forall|p: int| g2.port_live(p) == g1.port_live(p));
    assert(g2.wf_lens());
    assert(g2.wf_free());
    assert(g2.wf_ports()) by {
        assert forall|p: int| #[trigger] g2.port_live(p) implies g2.node_live(g2.port_owner(p))
            && g2.node_ports(g2.port_owner(p)).contains(PortRef(p as usize)) by {
            assert(g1.port_live(p));
            let owner = g1.port_owner(p);
            assert(g1.node_live(owner));
            assert(g2.node_ports(owner) == g1.node_ports(owner));
        }
    }
    assert(g2.wf_cleared());
    assert(g2.wf_edges()) by {
        assert forall|m: int, i: int|
            0 <= m < g2.node_count() && 0 <= i < g2.adj(m).len() implies {
            let e = #[trigger] g2.adj(m)[i];
            &&& g2.edge_wf(e)
            &&& (e.src_node.0 == m || e.dst_node.0 == m)
            &&& g2.adj(e.src_node.0 as int).contains(e)
            &&& g2.adj(e.dst_node.0 as int).contains(e)
        } by {
            assert(m < g1.node_count());
            let e = g1.adj(m)[i];
            assert(g1.adj(e.src_node.0 as int).contains(e));
            assert(g1.adj(e.dst_node.0 as int).contains(e));
        }
    }
    assert(forall|a: int, b: int| #[trigger] g2.has_edge(a, b) ==> g1.has_edge(a, b)) by {
        assert forall|a: int, b: int| #[trigger] g2.has_edge(a, b) implies g1.has_edge(a, b) by {
            if a == ni {
                assert(g2.adj(a).len() == 0);
            } else {
                assert(g2.adj(a) == g1.adj(a));
            }
        }
    }
    lemma_acyclic_mono(g1, g2);
}

} // verus!
