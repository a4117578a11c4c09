//! Edge insertion with its cycle guard.
//!
//! `connect` validates both ports, rejects mismatched types, succeeds
//! silently on an already-present edge, and otherwise runs a breadth-first
//! reachability walk from the destination node: if the source node can be
//! reached, the new edge would close a directed cycle and is rejected.

use vstd::prelude::*;

use crate::error::Error;
use crate::graph::{find_pair, pair_key, Edge, Graph};
use crate::port::{NodeRef, PortRef, PortType};

verus! {

impl<N, P, PT: PortType> Graph<N, P, PT> {
    /// A walk never reaches outside the node range.
    proof fn lemma_reaches_refl(self, a: int)
        ensures
            self.reaches(a, a),
    {
        let p = seq![a];
        assert(p.first() == a && p.last() == a);
        assert(self.is_path(p));
    }

    /// Reachability is closed under following one edge.
    proof fn lemma_reaches_step(self, a: int, b: int, c: int)
        requires
            self.reaches(a, b),
            self.has_edge(b, c),
        ensures
            self.reaches(a, c),
    {
        let p = choose|p: Seq<int>| #[trigger] self.is_path(p) && p.first() == a && p.last() == b;
        let q = p.push(c);
        assert(q.first() == a && q.last() == c);
        assert(self.is_path(q)) by {
            assert forall|i: int| 0 <= i < q.len() - 1 implies self.has_edge(
                #[trigger] q[i],
                q[i + 1],
            ) by {
                if i < p.len() - 1 {
                    assert(q[i] == p[i] && q[i + 1] == p[i + 1]);
                } else {
                    assert(q[i] == p.last() && q[i + 1] == c);
                }
            }
        }
    }
}

/// Every node on a walk that starts inside a closed, visited set stays
/// inside it. `visited` is indexed by node; the closure hypothesis says the
/// destination of every edge out of a visited node is visited.
proof fn lemma_walk_stays_visited<N, P, PT: PortType>(
    g: Graph<N, P, PT>,
    visited: Seq<bool>,
    p: Seq<int>,
)
    requires
        visited.len() == g.node_count(),
        g.is_path(p),
        0 <= p.first() < g.node_count(),
        visited[p.first()],
        forall|v: int, j: int|
            0 <= v < g.node_count() && visited[v] && 0 <= j < g.adj(v).len() && (#[trigger] g.adj(
                v,
            )[j]).src_node.0 == v ==> 0 <= g.adj(v)[j].dst_node.0 < g.node_count() && visited[g.adj(
                v,
            )[j].dst_node.0 as int],
    ensures
        0 <= p.last() < g.node_count() && visited[p.last()],
    decreases p.len(),
{
    if p.len() > 1 {
        let a = p[0];
        let b = p[1];
        assert(g.has_edge(a, b));
        let j = choose|j: int|
            0 <= j < g.adj(a).len() && (#[trigger] g.adj(a)[j]).src_node.0 == a
                && g.adj(a)[j].dst_node.0 == b;
        assert(0 <= b < g.node_count() && visited[b]);
        let q = p.drop_first();
        assert(g.is_path(q)) by {
            assert forall|i: int| 0 <= i < q.len() - 1 implies g.has_edge(
                #[trigger] q[i],
                q[i + 1],
            ) by {
                assert(q[i] == p[i + 1] && q[i + 1] == p[i + 2]);
            }
        }
        assert(q.first() == b);
        lemma_walk_stays_visited(g, visited, q);
        assert(q.last() == p.last());
    }
}

/// A walk in the extended graph, starting from a node the old graph reaches
/// from `dn`, ends in a node the old graph reaches from `dn` — provided the
/// old graph does not reach `sn` from `dn` (so the new edge is never taken).
proof fn lemma_path_transfer<N, P, PT: PortType>(
    g1: Graph<N, P, PT>,
    g2: Graph<N, P, PT>,
    sn: int,
    dn: int,
    q: Seq<int>,
)
    requires
        !g1.reaches(dn, sn),
        forall|a: int, b: int|
            #[trigger] g2.has_edge(a, b) ==> g1.has_edge(a, b) || (a == sn && b == dn),
        g2.is_path(q),
        g1.reaches(dn, q.first()),
    ensures
        g1.reaches(dn, q.last()),
    decreases q.len(),
{
    if q.len() > 1 {
        let a = q[0];
        let b = q[1];
        assert(g2.has_edge(a, b));
        if g1.has_edge(a, b) {
            g1.lemma_reaches_step(dn, a, b);
        } else {
            assert(a == sn && b == dn);
            assert(false);
        }
        let q2 = q.drop_first();
        assert(g2.is_path(q2)) by {
            assert forall|i: int| 0 <= i < q2.len() - 1 implies g2.has_edge(
                #[trigger] q2[i],
                q2[i + 1],
            ) by {
                assert(q2[i] == q[i + 1] && q2[i + 1] == q[i + 2]);
            }
        }
        lemma_path_transfer(g1, g2, sn, dn, q2);
        assert(q2.last() == q.last());
    }
}

/// Adding one edge from `sn` to `dn` keeps the graph acyclic when the old
/// graph has no walk from `dn` back to `sn`.
proof fn lemma_acyclic_after_add<N, P, PT: PortType>(
    g1: Graph<N, P, PT>,
    g2: Graph<N, P, PT>,
    sn: int,
    dn: int,
)
    requires
        g1.acyclic(),
        !g1.reaches(dn, sn),
        forall|a: int, b: int|
            #[trigger] g2.has_edge(a, b) ==> g1.has_edge(a, b) || (a == sn && b == dn),
    ensures
        g2.acyclic(),
{
    assert forall|p: Seq<int>| p.len() >= 2 && #[trigger] g2.is_path(p) implies p.first()
        != p.last() by {
        if p.first() == p.last() {
            if forall|i: int| 0 <= i < p.len() - 1 ==> g1.has_edge(#[trigger] p[i], p[i + 1]) {
                assert(g1.is_path(p));
                assert(false);
            } else {
                let i = choose|i: int| 0 <= i < p.len() - 1 && !g1.has_edge(#[trigger] p[i], p[i + 1]);
                assert(g2.has_edge(p[i], p[i + 1]));
                assert(p[i] == sn && p[i + 1] == dn);
                let front = p.subrange(i + 1, p.len() as int);
                let back = p.subrange(1, i + 1);
                let q = front + back;
                assert(q.len() == p.len() - 1 >= 1);
                assert(q.first() == p[i + 1]);
                assert(q.last() == sn) by {
                    if i == 0 {
                        assert(q.last() == p[p.len() - 1]);
                        assert(p[p.len() - 1] == p.last() && p.first() == p[0]);
                    } else {
                        assert(q.last() == back[i - 1]);
                        assert(back[i - 1] == p[i]);
                    }
                }
                assert(g2.is_path(q)) by {
                    assert forall|k: int| 0 <= k < q.len() - 1 implies g2.has_edge(
                        #[trigger] q[k],
                        q[k + 1],
                    ) by {
                        if k < front.len() - 1 {
                            assert(q[k] == p[i + 1 + k] && q[k + 1] == p[i + 2 + k]);
                        } else if k == front.len() - 1 {
                            assert(q[k] == p[p.len() - 1]);
                            assert(p[p.len() - 1] == p.first());
                            assert(q[k + 1] == p[1]);
                            assert(g2.has_edge(p[0], p[1]));
                        } else {
                            let k2 = k - front.len();
                            assert(q[k] == p[1 + k2] && q[k + 1] == p[2 + k2]);
                        }
                    }
                }
                g1.lemma_reaches_refl(dn);
                lemma_path_transfer(g1, g2, sn, dn, q);
                assert(false);
            }
        }
    }
}

/// A vector of `n` clear flags.
pub(crate) fn vec_false(n: usize) -> (r: Vec<bool>)
    ensures
        r@.len() == n,
        forall|i: int| 0 <= i < n ==> !(#[trigger] r@[i]),
{
    let mut r: Vec<bool> = Vec::new();
    let mut i: usize = 0;
    while i < n
        invariant
            0 <= i <= n,
            r@.len() == i,
            forall|j: int| 0 <= j < i ==> !(#[trigger] r@[j]),
        decreases n - i,
    {
        r.push(false);
        i = i + 1;
    }
    r
}

impl<N, P, PT: PortType> Graph<N, P, PT> {
    /// Would-be-cycle test: succeeds exactly when no walk leads from `dst`
    /// back to `src`, by a breadth-first walk over dependents.
    fn cycle_check(&self, src: NodeRef, dst: NodeRef) -> (r: Result<(), Error>)
        requires
            self.wf(),
            self.node_live(src.0 as int),
            self.node_live(dst.0 as int),
        ensures
            r is Ok <==> !self.reaches(dst.0 as int, src.0 as int),
            r is Err ==> r == Err::<(), Error>(Error::Cycle),
    {
        let n_nodes = self.ports.len();
        let mut visited: Vec<bool> = vec_false(n_nodes);
        let mut queue: Vec<NodeRef> = Vec::new();
        let mut head: usize = 0;
        proof {
            crate::seq_lemmas::lemma_num_true_all_false(visited@);
            self.lemma_reaches_refl(dst.0 as int);
        }
        let ghost vinit = visited@;
        visited.set(dst.0, true);
        queue.push(dst);
        proof {
            crate::seq_lemmas::lemma_num_true_set(vinit, dst.0 as int);
            assert(queue@[0] == dst);
        }
        while head < queue.len()
            invariant
                n_nodes as int == self.node_count(),
                visited@.len() == n_nodes,
                0 <= head <= queue@.len(),
                queue@.len() >= 1,
                queue@[0] == dst,
                crate::seq_lemmas::num_true(visited@) == queue@.len(),
                forall|k: int|
                    0 <= k < queue@.len() ==> (#[trigger] queue@[k]).0 < n_nodes
                        && visited@[queue@[k].0 as int],
                queue@.no_duplicates(),
                forall|v: int|
                    0 <= v < n_nodes && #[trigger] visited@[v] ==> queue@.contains(
                        NodeRef(v as usize),
                    ),
                forall|v: int|
                    0 <= v < n_nodes && #[trigger] visited@[v] ==> self.reaches(dst.0 as int, v),
                forall|k: int| 0 <= k < head ==> (#[trigger] queue@[k]) != src,
                forall|k: int, j: int|
                    0 <= k < head && 0 <= j < self.adj(queue@[k].0 as int).len() && (
                    #[trigger] self.adj(queue@[k].0 as int)[j]).src_node == queue@[k]
                        ==> visited@[self.adj(queue@[k].0 as int)[j].dst_node.0 as int],
            decreases n_nodes - crate::seq_lemmas::num_true(visited@), queue@.len() - head,
        {
            proof {
                crate::seq_lemmas::lemma_num_true_bound(visited@);
            }
            let node = queue[head];
            if node == src {
                proof {
                    assert(visited@[node.0 as int]);
                }
                return Err(Error::Cycle);
            }
            let list_len = self.edges[node.0].len();
            let mut j: usize = 0;
            let ghost len0 = queue@.len();
            while j < list_len
                invariant
                    n_nodes as int == self.node_count(),
                    visited@.len() == n_nodes,
                    0 <= head < queue@.len(),
                    queue@.len() >= len0,
                    queue@[0] == dst,
                    node == queue@[head as int],
                    node != src,
                    node.0 < n_nodes,
                    list_len as int == self.adj(node.0 as int).len(),
                    0 <= j <= list_len,
                    crate::seq_lemmas::num_true(visited@) == queue@.len(),
                    forall|k: int|
                        0 <= k < queue@.len() ==> (#[trigger] queue@[k]).0 < n_nodes
                            && visited@[queue@[k].0 as int],
                    queue@.no_duplicates(),
                    forall|v: int|
                        0 <= v < n_nodes && #[trigger] visited@[v] ==> queue@.contains(
                            NodeRef(v as usize),
                        ),
                    forall|v: int|
                        0 <= v < n_nodes && #[trigger] visited@[v] ==> self.reaches(
                            dst.0 as int,
                            v,
                        ),
                    forall|k: int| 0 <= k < head ==> (#[trigger] queue@[k]) != src,
                    forall|k: int, jj: int|
                        0 <= k < head && 0 <= jj < self.adj(queue@[k].0 as int).len() && (
                        #[trigger] self.adj(queue@[k].0 as int)[jj]).src_node == queue@[k]
                            ==> visited@[self.adj(queue@[k].0 as int)[jj].dst_node.0 as int],
                    forall|jj: int|
                        0 <= jj < j && (#[trigger] self.adj(node.0 as int)[jj]).src_node == node
                            ==> visited@[self.adj(node.0 as int)[jj].dst_node.0 as int],
                decreases list_len - j,
            {
                let e = self.edges[node.0][j];
                if e.src_node == node {
                    let d = e.dst_node;
                    proof {
                        assert(self.edge_wf(self.adj(node.0 as int)[j as int]));
                        assert(self.node_live(d.0 as int));
                        assert(self.reaches(dst.0 as int, node.0 as int));
                        assert(self.has_edge(node.0 as int, d.0 as int)) by {
                            assert((#[trigger] self.adj(node.0 as int)[j as int]).src_node.0
                                == node.0);
                        }
                        self.lemma_reaches_step(dst.0 as int, node.0 as int, d.0 as int);
                    }
                    if !visited[d.0] {
                        let ghost vis0 = visited@;
                        let ghost q0 = queue@;
                        visited.set(d.0, true);
                        queue.push(d);
                        proof {
                            crate::seq_lemmas::lemma_num_true_set(vis0, d.0 as int);
                            assert(!q0.contains(d)) by {
                                if q0.contains(d) {
                                    let k = choose|k: int| 0 <= k < q0.len() && q0[k] == d;
                                    assert(vis0[q0[k].0 as int]);
                                }
                            }
                            assert forall|i1: int, j1: int|
                                0 <= i1 < j1 < queue@.len() implies queue@[i1] != queue@[j1] by {
                                if j1 < queue@.len() - 1 {
                                    assert(queue@[i1] == q0[i1] && queue@[j1] == q0[j1]);
                                } else {
                                    assert(queue@[j1] == d);
                                    assert(queue@[i1] == q0[i1]);
                                    assert(q0.contains(q0[i1]));
                                }
                            }
                            assert forall|v: int|
                                0 <= v < n_nodes && #[trigger] visited@[v] implies queue@.contains(
                                NodeRef(v as usize),
                            ) by {
                                if v == d.0 as int {
                                    assert(queue@[queue@.len() - 1] == d);
                                    assert(NodeRef(v as usize) == d);
                                } else {
                                    assert(vis0[v]);
                                    let k = choose|k: int|
                                        0 <= k < q0.len() && q0[k] == NodeRef(v as usize);
                                    assert(queue@[k] == NodeRef(v as usize));
                                }
                            }
                        }
                    }
                }
                j = j + 1;
            }
            head = head + 1;
        }
        proof {
            if self.reaches(dst.0 as int, src.0 as int) {
                let p = choose|p: Seq<int>|
                    #[trigger] self.is_path(p) && p.first() == dst.0 as int && p.last()
                        == src.0 as int;
                assert forall|v: int, jj: int|
                    0 <= v < self.node_count() && visited@[v] && 0 <= jj < self.adj(v).len() && (
                    #[trigger] self.adj(v)[jj]).src_node.0 == v implies 0 <= self.adj(
                    v,
                )[jj].dst_node.0 < self.node_count() && visited@[self.adj(
                    v,
                )[jj].dst_node.0 as int] by {
                    assert(self.ports.len() as int == self.node_count());
                    let vr = NodeRef(v as usize);
                    assert(vr.0 as int == v);
                    assert(queue@.contains(vr));
                    let k = choose|k: int| 0 <= k < queue@.len() && queue@[k] == vr;
                    assert(self.edge_wf(self.adj(v)[jj]));
                    assert((self.adj(queue@[k].0 as int)[jj]).src_node == queue@[k]);
                    assert(visited@[self.adj(queue@[k].0 as int)[jj].dst_node.0 as int]);
                }
                assert(visited@[dst.0 as int]);
                lemma_walk_stays_visited(*self, visited@, p);
                assert(visited@[src.0 as int]);
                let k = choose|k: int|
                    0 <= k < queue@.len() && queue@[k] == NodeRef(src.0 as usize);
                assert(queue@[k] != src);
                assert(false);
            }
        }
        Ok(())
    }

    /// Connect port `src` to port `dst` with a directed, type-checked edge.
    ///
    /// Both handles must be live; the ports must have the same type; a
    /// connection that already exists is reported as success without any
    /// change; an edge that would close a directed cycle (including a
    /// connection inside one node) is rejected with `Cycle`. On success the
    /// edge is appended to both endpoint nodes' adjacency lists.
    pub fn connect(&mut self, src: PortRef, dst: PortRef) -> (r: Result<(), Error>)
        requires
            old(self).wf(),
        ensures
            final(self).wf(),
            !old(self).port_live(src.0 as int) || !old(self).port_live(dst.0 as int) ==> r
                == Err::<(), Error>(Error::PortDoesNotExist) && *final(self) == *old(self),
            old(self).port_live(src.0 as int) && old(self).port_live(dst.0 as int) && old(
                self,
            ).port_ty(src.0 as int).type_index() != old(self).port_ty(dst.0 as int).type_index()
                ==> r == Err::<(), Error>(Error::InvalidPortType) && *final(self) == *old(self),
            old(self).port_live(src.0 as int) && old(self).port_live(dst.0 as int) && old(
                self,
            ).port_ty(src.0 as int).type_index() == old(self).port_ty(dst.0 as int).type_index()
                && old(self).connected(src, dst) ==> r == Ok::<(), Error>(()) && *final(self)
                == *old(self),
            old(self).port_live(src.0 as int) && old(self).port_live(dst.0 as int) && old(
                self,
            ).port_ty(src.0 as int).type_index() == old(self).port_ty(dst.0 as int).type_index()
                && !old(self).connected(src, dst) && old(self).reaches(
                old(self).port_owner(dst.0 as int),
                old(self).port_owner(src.0 as int),
            ) ==> r == Err::<(), Error>(Error::Cycle) && *final(self) == *old(self),
            old(self).port_live(src.0 as int) && old(self).port_live(dst.0 as int) && old(
                self,
            ).port_ty(src.0 as int).type_index() == old(self).port_ty(dst.0 as int).type_index()
                && !old(self).connected(src, dst) && !old(self).reaches(
                old(self).port_owner(dst.0 as int),
                old(self).port_owner(src.0 as int),
            ) ==> ({
                let e = (Edge {
                    src_node: old(self).port_data@[src.0 as int].0,
                    src_port: src,
                    dst_node: old(self).port_data@[dst.0 as int].0,
                    dst_port: dst,
                    type_: old(self).port_ty(src.0 as int),
                });
                let sn = old(self).port_owner(src.0 as int);
                let dn = old(self).port_owner(dst.0 as int);
                &&& r == Ok::<(), Error>(())
                &&& final(self).adj(sn) == old(self).adj(sn).push(e)
                &&& final(self).adj(dn) == old(self).adj(dn).push(e)
                &&& forall|m: int|
                    0 <= m < old(self).node_count() && m != sn && m != dn ==> final(self).adj(m)
                        == old(self).adj(m)
                &&& final(self).connected(src, dst)
                &&& final(self).ports@ == old(self).ports@
                &&& final(self).delays@ == old(self).delays@
                &&& final(self).node_identifiers@ == old(self).node_identifiers@
                &&& final(self).free_nodes@ == old(self).free_nodes@
                &&& Self::same_ports_side(*old(self), *final(self))
            }),
    {
        self.port_check(src)?;
        self.port_check(dst)?;
        let (src_node, src_type) = self.port_data[src.0];
        let (dst_node, dst_type) = self.port_data[dst.0];
        if src_type.into_index() != dst_type.into_index() {
            return Err(Error::InvalidPortType);
        }
        proof {
            assert(old(self).node_live(src_node.0 as int));
            assert(old(self).node_live(dst_node.0 as int));
        }
        let already = find_pair(&self.edges[src_node.0], src, dst);
        proof {
            let so = self.port_owner(src.0 as int);
            assert(so == src_node.0 as int);
            let list = self.adj(so);
            assert(list == self.edges@[src_node.0 as int]@);
            assert(already == self.connected(src, dst)) by {
                if already {
                    let i = choose|i: int|
                        0 <= i < list.len() && (#[trigger] list[i]).src_port == src
                            && list[i].dst_port == dst;
                    assert((#[trigger] self.adj(so)[i]).src_port == src && self.adj(so)[i].dst_port
                        == dst);
                } else {
                    if self.connected(src, dst) {
                        let i = choose|i: int|
                            0 <= i < self.adj(so).len() && (#[trigger] self.adj(so)[i]).src_port
                                == src && self.adj(so)[i].dst_port == dst;
                        assert((#[trigger] list[i]).src_port == src && list[i].dst_port == dst);
                    }
                }
            }
        }
        if already {
            return Ok(());
        }
        if let Err(e) = self.cycle_check(src_node, dst_node) {
            return Err(e);
        }
        let edge = Edge { src_node, src_port: src, dst_node, dst_port: dst, type_: src_type };
        self.edges[src_node.0].push(edge);
        let ghost mid = *self;
        self.edges[dst_node.0].push(edge);
        proof {
            let sn = src_node.0 as int;
            let dn = dst_node.0 as int;
            assert(sn != dn) by {
                if sn == dn {
                    old(self).lemma_reaches_refl(dn);
                }
            }
            assert(mid.edges@[sn] == self.edges@[sn]);
            assert(self.adj(sn) == old(self).adj(sn).push(edge));
            assert(self.adj(dn) == old(self).adj(dn).push(edge));
            assert(forall|m: int|
                0 <= m < old(self).node_count() && m != sn && m != dn ==> self.edges@[m] == old(
                    self,
                ).edges@[m]);
            lemma_wf_after_connect(*old(self), *self, edge);
            assert(self.connected(src, dst)) by {
                assert(self.port_owner(src.0 as int) == sn);
                assert(self.adj(sn)[self.adj(sn).len() - 1] == edge);
            }
        }
        Ok(())
    }
}

/// Appending one type-checked, cycle-free edge to both endpoint lists keeps
/// the graph well formed.
proof fn lemma_wf_after_connect<N, P, PT: PortType>(
    g1: Graph<N, P, PT>,
    g2: Graph<N, P, PT>,
    e: Edge<PT>,
)
    requires
        g1.wf(),
        g1.port_live(e.src_port.0 as int),
        g1.port_live(e.dst_port.0 as int),
        e.src_node == g1.port_data@[e.src_port.0 as int].0,
        e.dst_node == g1.port_data@[e.dst_port.0 as int].0,
        e.type_ == g1.port_ty(e.src_port.0 as int),
        g1.port_ty(e.src_port.0 as int).type_index() == g1.port_ty(
            e.dst_port.0 as int,
        ).type_index(),
        !g1.connected(e.src_port, e.dst_port),
        !g1.reaches(e.dst_node.0 as int, e.src_node.0 as int),
        e.src_node.0 != e.dst_node.0,
        g2.edges@.len() == g1.edges@.len(),
        g2.adj(e.src_node.0 as int) == g1.adj(e.src_node.0 as int).push(e),
        g2.adj(e.dst_node.0 as int) == g1.adj(e.dst_node.0 as int).push(e),
        forall|m: int|
            0 <= m < g1.node_count() && m != e.src_node.0 && m != e.dst_node.0
                ==> g2.edges@[m] == g1.edges@[m],
        g2.ports@ == g1.ports@,
        g2.delays@ == g1.delays@,
        g2.port_data@ == g1.port_data@,
        g2.port_identifiers@ == g1.port_identifiers@,
        g2.node_identifiers@ == g1.node_identifiers@,
        g2.free_nodes@ == g1.free_nodes@,
        g2.free_ports@ == g1.free_ports@,
    ensures
        g2.wf(),
{
    let sn = e.src_node.0 as int;
    let dn = e.dst_node.0 as int;
    assert(g1.node_live(sn) && g1.node_live(dn));
    assert(forall|m: int| g2.node_live(m) == g1.node_live(m));
    assert(forall|p: int| g2.port_live(p) == g1.port_live(p));
    assert(forall|m: int| 0 <= m < g1.node_count() ==> g2.node_ports(m) == g1.node_ports(m));
    assert(forall|m: int|
        0 <= m < g1.node_count() && m != sn && m != dn ==> g2.adj(m) == g1.adj(m));
    assert(g2.edge_wf(e));
    assert(g2.wf_lens());
    assert(g2.wf_free());
    assert(g2.wf_ports());
    assert(g2.wf_cleared()) by {
        assert forall|m: int|
            0 <= m < g2.node_count() && !(#[trigger] g2.node_live(m)) implies g2.adj(m).len() == 0
            && g2.node_ports(m).len() == 0 by {
            assert(!g1.node_live(m));
            assert(m != sn && m != dn);
            assert(g2.adj(m) == g1.adj(m));
        }
    }
    // no edge with this port pair is stored anywhere in g1
    assert forall|m: int, i: int|
        0 <= m < g1.node_count() && 0 <= i < g1.adj(m).len() implies !((#[trigger] g1.adj(
        m,
    )[i]).src_port == e.src_port && g1.adj(m)[i].dst_port == e.dst_port) by {
        let e1 = g1.adj(m)[i];
        if e1.src_port == e.src_port && e1.dst_port == e.dst_port {
            assert(g1.edge_wf(e1));
            assert(e1.src_node == e.src_node);
            assert(g1.adj(sn).contains(e1));
            let k = choose|k: int| 0 <= k < g1.adj(sn).len() && g1.adj(sn)[k] == e1;
            assert(g1.port_owner(e.src_port.0 as int) == sn);
            assert((#[trigger] g1.adj(g1.port_owner(e.src_port.0 as int))[k]).src_port
                == e.src_port && g1.adj(g1.port_owner(e.src_port.0 as int))[k].dst_port
                == e.dst_port);
            assert(g1.connected(e.src_port, e.dst_port));
        }
    }
    assert(g2.wf_edges()) by {
        assert forall|n: int, i: int|
            0 <= n < g2.node_count() && 0 <= i < g2.adj(n).len() implies {
            let e2 = #[trigger] g2.adj(n)[i];
            &&& g2.edge_wf(e2)
            &&& (e2.src_node.0 == n || e2.dst_node.0 == n)
            &&& g2.adj(e2.src_node.0 as int).contains(e2)
            &&& g2.adj(e2.dst_node.0 as int).contains(e2)
        } by {
            let e2 = g2.adj(n)[i];
            if (n == sn || n == dn) && i == g2.adj(n).len() - 1 {
                assert(e2 == e);
                assert(g2.adj(sn)[g2.adj(sn).len() - 1] == e);
                assert(g2.adj(dn)[g2.adj(dn).len() - 1] == e);
            } else {
                assert(e2 == g1.adj(n)[i]);
                assert(g1.edge_wf(e2));
                let s2 = e2.src_node.0 as int;
                let d2 = e2.dst_node.0 as int;
                assert(g1.node_live(s2) && g1.node_live(d2));
                assert(g1.adj(s2).contains(e2));
                let ks = choose|k: int| 0 <= k < g1.adj(s2).len() && g1.adj(s2)[k] == e2;
                if s2 == sn || s2 == dn {
                    assert(g2.adj(s2)[ks] == e2);
                } else {
                    assert(g2.adj(s2) == g1.adj(s2));
                }
                assert(g2.adj(s2).contains(e2)) by {
                    if s2 == sn || s2 == dn {
                        assert(g2.adj(s2)[ks] == e2);
                    }
                }
                assert(g1.adj(d2).contains(e2));
                let kd = choose|k: int| 0 <= k < g1.adj(d2).len() && g1.adj(d2)[k] == e2;
                assert(g2.adj(d2).contains(e2)) by {
                    if d2 == sn || d2 == dn {
                        assert(g2.adj(d2)[kd] == e2);
                    }
                }
            }
        }
        assert forall|n: int|
            0 <= n < g2.node_count() implies crate::seq_lemmas::distinct_by(
            #[trigger] g2.adj(n),
            pair_key::<PT>(),
        ) by {
            if n == sn || n == dn {
                assert forall|i: int, j: int|
                    #![trigger g2.adj(n)[i], g2.adj(n)[j]]
                    0 <= i < j < g2.adj(n).len() implies pair_key::<PT>()(g2.adj(n)[i])
                    != pair_key::<PT>()(g2.adj(n)[j]) by {
                    if j < g2.adj(n).len() - 1 {
                        assert(g2.adj(n)[i] == g1.adj(n)[i] && g2.adj(n)[j] == g1.adj(n)[j]);
                        assert(crate::seq_lemmas::distinct_by(g1.adj(n), pair_key::<PT>()));
                    } else {
                        assert(g2.adj(n)[j] == e);
                        assert(g2.adj(n)[i] == g1.adj(n)[i]);
                    }
                }
            } else {
                assert(g2.adj(n) == g1.adj(n));
            }
        }
    }
    assert forall|a: int, b: int| #[trigger] g2.has_edge(a, b) implies g1.has_edge(a, b) || (a
        == sn && b == dn) by {
        let i = choose|i: int|
            0 <= i < g2.adj(a).len() && (#[trigger] g2.adj(a)[i]).src_node.0 == a
                && g2.adj(a)[i].dst_node.0 == b;
        if a == sn || a == dn {
            if i < g2.adj(a).len() - 1 {
                assert(g1.adj(a)[i] == g2.adj(a)[i]);
            } else {
                assert(g2.adj(a)[i] == e);
            }
        } else {
            if 0 <= a < g1.node_count() {
                assert(g2.adj(a) == g1.adj(a));
            }
        }
    }
    lemma_acyclic_after_add(g1, g2, sn, dn);
}

} // verus!
