//! The topological walker: Kahn's algorithm over the live nodes.
//!
//! The walker computes every live node's in-degree (its number of
//! dependency edges), seeds a queue with the zero-in-degree nodes in handle
//! order, and repeatedly pops a node, decrementing the in-degree of each
//! dependent and enqueueing those that reach zero. Acyclicity guarantees
//! that every live node is visited exactly once.

use vstd::prelude::*;

use crate::buffer::{Buffer, BufferAllocator};
use crate::connect::vec_false;
use crate::graph::{contains_node, pair_key, Edge, Graph};
use crate::port::{NodeRef, PortRef, PortType};
use crate::seq_lemmas::{
    lemma_filter_disjoint_split, lemma_filter_empty_no_match, lemma_filter_match_nonempty,
    lemma_filter_no_duplicates, lemma_filter_suffix_step, lemma_filter_take_all,
    lemma_filter_take_step, lemma_num_true_bound, lemma_num_true_set, lemma_pigeonhole,
    lemma_same_set_same_len, num_true,
};

verus! {

/// The dependency edges of node `v` whose source node is not in `proc`.
pub open spec fn dep_pending<PT: PortType>(v: int, proc: Seq<NodeRef>) -> spec_fn(Edge<PT>) -> bool {
    |e: Edge<PT>| e.dst_node.0 == v && !proc.contains(e.src_node)
}

/// How many dependency edges of `v` still wait for an unprocessed source.
pub open spec fn dep_cnt<N, P, PT: PortType>(g: Graph<N, P, PT>, v: int, proc: Seq<NodeRef>) -> int {
    g.adj(v).filter(dep_pending(v, proc)).len() as int
}

/// The edges from node `m` into node `v`.
pub open spec fn from_to<PT: PortType>(m: NodeRef, v: int) -> spec_fn(Edge<PT>) -> bool {
    |e: Edge<PT>| e.src_node == m && e.dst_node.0 == v
}

/// Every live node outside `q` has a dependency edge whose source is a
/// live node outside `q`.
pub open spec fn every_unqueued_has_pending<N, P, PT: PortType>(
    g: Graph<N, P, PT>,
    q: Seq<NodeRef>,
) -> bool {
    forall|v: int|
        #![trigger g.node_live(v), q.contains(NodeRef(v as usize))]
        0 <= v < g.node_count() && g.node_live(v) && !q.contains(NodeRef(v as usize)) ==> exists|
            i: int,
        |
            0 <= i < g.adj(v).len() && (#[trigger] g.adj(v)[i]).dst_node.0 == v && !q.contains(
                g.adj(v)[i].src_node,
            )
}

/// An adjacency list of a well-formed graph has no duplicate entries.
proof fn lemma_adj_no_duplicates<N, P, PT: PortType>(g: Graph<N, P, PT>, n: int)
    requires
        g.wf(),
        0 <= n < g.node_count(),
    ensures
        g.adj(n).no_duplicates(),
{
    assert(crate::seq_lemmas::distinct_by(g.adj(n), pair_key::<PT>()));
    assert forall|i: int, j: int| 0 <= i < j < g.adj(n).len() implies g.adj(n)[i] != g.adj(n)[j] by {
        assert(pair_key::<PT>()(g.adj(n)[i]) != pair_key::<PT>()(g.adj(n)[j]));
    }
}

/// The edges from `m` to `v` are stored once in each endpoint's list, so
/// both lists hold the same number of them.
proof fn lemma_cross_count<N, P, PT: PortType>(g: Graph<N, P, PT>, m: NodeRef, v: int)
    requires
        g.wf(),
        0 <= (m.0 as int) < g.node_count(),
        0 <= v < g.node_count(),
    ensures
        g.adj(v).filter(from_to::<PT>(m, v)).len() == g.adj(m.0 as int).filter(
            from_to::<PT>(m, v),
        ).len(),
{
    let fa = g.adj(v).filter(from_to::<PT>(m, v));
    let fb = g.adj(m.0 as int).filter(from_to::<PT>(m, v));
    lemma_adj_no_duplicates(g, v);
    lemma_adj_no_duplicates(g, m.0 as int);
    lemma_filter_no_duplicates(g.adj(v), from_to::<PT>(m, v));
    lemma_filter_no_duplicates(g.adj(m.0 as int), from_to::<PT>(m, v));
    assert(fa.to_set() =~= fb.to_set()) by {
        assert forall|e: Edge<PT>| fa.to_set().contains(e) implies fb.to_set().contains(e) by {
            assert(fa.contains(e));
            g.adj(v).lemma_filter_contains_rev(from_to::<PT>(m, v), e);
            let k = choose|k: int| 0 <= k < g.adj(v).len() && g.adj(v)[k] == e;
            assert(from_to::<PT>(m, v)(e)) by {
                let i = choose|i: int| 0 <= i < fa.len() && fa[i] == e;
                g.adj(v).lemma_filter_pred(from_to::<PT>(m, v), i);
            }
            assert(g.adj(e.src_node.0 as int).contains(e));
            let k2 = choose|k2: int|
                0 <= k2 < g.adj(m.0 as int).len() && g.adj(m.0 as int)[k2] == e;
            g.adj(m.0 as int).lemma_filter_contains(from_to::<PT>(m, v), k2);
        }
        assert forall|e: Edge<PT>| fb.to_set().contains(e) implies fa.to_set().contains(e) by {
            assert(fb.contains(e));
            g.adj(m.0 as int).lemma_filter_contains_rev(from_to::<PT>(m, v), e);
            let k = choose|k: int|
                0 <= k < g.adj(m.0 as int).len() && g.adj(m.0 as int)[k] == e;
            assert(from_to::<PT>(m, v)(e)) by {
                let i = choose|i: int| 0 <= i < fb.len() && fb[i] == e;
                g.adj(m.0 as int).lemma_filter_pred(from_to::<PT>(m, v), i);
            }
            assert(g.adj(e.dst_node.0 as int).contains(e));
            let k2 = choose|k2: int| 0 <= k2 < g.adj(v).len() && g.adj(v)[k2] == e;
            g.adj(v).lemma_filter_contains(from_to::<PT>(m, v), k2);
        }
    }
    lemma_same_set_same_len(fa, fb);
}

/// Marking `m` processed accounts exactly for the edges from `m` into `v`.
proof fn lemma_dep_cnt_extend<N, P, PT: PortType>(
    g: Graph<N, P, PT>,
    v: int,
    proc: Seq<NodeRef>,
    m: NodeRef,
)
    requires
        !proc.contains(m),
    ensures
        dep_cnt(g, v, proc) == dep_cnt(g, v, proc.push(m)) + g.adj(v).filter(
            from_to::<PT>(m, v),
        ).len(),
{
    let proc2 = proc.push(m);
    assert forall|i: int|
        0 <= i < g.adj(v).len() implies (dep_pending::<PT>(v, proc)(#[trigger] g.adj(v)[i]) <==> (
        dep_pending::<PT>(v, proc2)(g.adj(v)[i]) || from_to::<PT>(m, v)(g.adj(v)[i]))) by {
        let e = g.adj(v)[i];
        crate::seq_lemmas::lemma_push_contains(proc, m, e.src_node);
    }
    assert forall|i: int|
        0 <= i < g.adj(v).len() implies !(dep_pending::<PT>(v, proc2)(#[trigger] g.adj(v)[i])
        && from_to::<PT>(m, v)(g.adj(v)[i])) by {
        let e = g.adj(v)[i];
        crate::seq_lemmas::lemma_push_contains(proc, m, e.src_node);
    }
    lemma_filter_disjoint_split(
        g.adj(v),
        dep_pending::<PT>(v, proc2),
        from_to::<PT>(m, v),
        dep_pending::<PT>(v, proc),
    );
}

/// From any live node outside `q`, chains of dependency edges through live
/// nodes outside `q` can be made arbitrarily long.
#[verifier::rlimit(100)]
proof fn lemma_unqueued_chain<N, P, PT: PortType>(
    g: Graph<N, P, PT>,
    q: Seq<NodeRef>,
    v0: int,
    len: nat,
) -> (s: Seq<int>)
    requires
        g.wf(),
        0 <= v0 < g.node_count(),
        g.node_live(v0),
        !q.contains(NodeRef(v0 as usize)),
        every_unqueued_has_pending(g, q),
    ensures
        s.len() == len + 1,
        s[0] == v0,
        forall|k: int|
            0 <= k < s.len() ==> 0 <= #[trigger] s[k] < g.node_count() && g.node_live(s[k])
                && !q.contains(NodeRef(s[k] as usize)),
        forall|k: int| 0 <= k < s.len() - 1 ==> g.has_edge(s[k + 1], #[trigger] s[k]),
    decreases len,
{
    if len == 0 {
        let s = seq![v0];
        s
    } else {
        assert(g.node_live(v0) && !q.contains(NodeRef(v0 as usize)));
        let i = choose|i: int|
            0 <= i < g.adj(v0).len() && (#[trigger] g.adj(v0)[i]).dst_node.0 == v0 && !q.contains(
                g.adj(v0)[i].src_node,
            );
        let e = g.adj(v0)[i];
        assert(g.edge_wf(e));
        let m = e.src_node.0 as int;
        assert(g.node_live(m)) by {
            assert(g.port_live(e.src_port.0 as int));
        }
        assert(NodeRef(m as usize) == e.src_node);
        assert(g.has_edge(m, v0)) by {
            assert(g.adj(m).contains(e));
            let k = choose|k: int| 0 <= k < g.adj(m).len() && g.adj(m)[k] == e;
            assert((#[trigger] g.adj(m)[k]).src_node.0 == m && g.adj(m)[k].dst_node.0 == v0);
        }
        let rest = lemma_unqueued_chain(g, q, m, (len - 1) as nat);
        let s = seq![v0] + rest;
        assert(s[0] == v0);
        assert forall|k: int| 0 <= k < s.len() - 1 implies g.has_edge(s[k + 1], #[trigger] s[k]) by {
            if k == 0 {
                assert(s[0] == v0 && s[1] == rest[0] && rest[0] == m);
            } else {
                assert(s[k] == rest[k - 1] && s[k + 1] == rest[k]);
                assert(g.has_edge(rest[k], rest[k - 1]));
            }
        }
        s
    }
}

/// If every live node outside `q` still waits on such a node, the graph
/// would hold a cycle; an acyclic graph therefore has none.
#[verifier::rlimit(100)]
proof fn lemma_all_live_queued<N, P, PT: PortType>(g: Graph<N, P, PT>, q: Seq<NodeRef>)
    requires
        g.wf(),
        every_unqueued_has_pending(g, q),
    ensures
        forall|v: int|
            0 <= v < g.node_count() && #[trigger] g.node_live(v) ==> q.contains(
                NodeRef(v as usize),
            ),
{
    let n = g.node_count();
    assert forall|v: int| 0 <= v < n && #[trigger] g.node_live(v) implies q.contains(
        NodeRef(v as usize),
    ) by {
        if !q.contains(NodeRef(v as usize)) {
            let s = lemma_unqueued_chain(g, q, v, n as nat);
            lemma_pigeonhole(s, n);
            let (i, j) = choose|i: int, j: int| 0 <= i < j < s.len() && s[i] == s[j];
            let p = Seq::new((j - i + 1) as nat, |t: int| s[j - t]);
            assert(p.len() >= 2);
            assert(g.is_path(p)) by {
                assert forall|t: int| 0 <= t < p.len() - 1 implies g.has_edge(
                    #[trigger] p[t],
                    p[t + 1],
                ) by {
                    assert(p[t] == s[j - t] && p[t + 1] == s[j - t - 1]);
                    assert(g.has_edge(s[(j - t - 1) + 1], s[j - t - 1]));
                }
            }
            assert(p.first() == s[j] && p.last() == s[i]);
            assert(false);
        }
    }
}

impl<N, P, PT: PortType> Graph<N, P, PT> {
    /// A deterministic topological order of the live nodes: every live node
    /// appears exactly once, and the source of every dependency edge of a
    /// node appears before that node.
    #[verifier::rlimit(100)]
    pub fn topo_order(&self) -> (r: Vec<NodeRef>)
        requires
            self.wf(),
        ensures
            forall|k: int| 0 <= k < r@.len() ==> self.node_live((#[trigger] r@[k]).0 as int),
            r@.no_duplicates(),
            forall|v: int|
                0 <= v < self.node_count() && #[trigger] self.node_live(v) ==> r@.contains(
                    NodeRef(v as usize),
                ),
            forall|k: int, i: int|
                0 <= k < r@.len() && 0 <= i < self.adj(r@[k].0 as int).len() && (#[trigger] self.adj(
                    r@[k].0 as int,
                )[i]).dst_node == r@[k] ==> exists|k2: int|
                    0 <= k2 < k && r@[k2] == self.adj(r@[k].0 as int)[i].src_node,
    {
        let n_nodes = self.ports.len();
        // in-degree of every node: its count of dependency edges
        let mut indeg: Vec<usize> = Vec::new();
        let mut v: usize = 0;
        while v < n_nodes
            invariant
                0 <= v <= n_nodes,
                n_nodes as int == self.node_count(),
                indeg@.len() == v,
                forall|u: int|
                    0 <= u < v ==> #[trigger] indeg@[u] as int == dep_cnt(
                        *self,
                        u,
                        Seq::<NodeRef>::empty(),
                    ),
            decreases n_nodes - v,
        {
            let list_len = self.edges[v].len();
            let mut c: usize = 0;
            let mut i: usize = 0;
            proof {
                assert(self.adj(v as int).subrange(0, 0) =~= Seq::<Edge<PT>>::empty());
                assert(Seq::<Edge<PT>>::empty().filter(
                    dep_pending::<PT>(v as int, Seq::<NodeRef>::empty()),
                ) =~= Seq::<Edge<PT>>::empty()) by {
                    reveal(Seq::filter);
                }
            }
            while i < list_len
                invariant
                    0 <= i <= list_len,
                    v < n_nodes,
                    n_nodes as int == self.node_count(),
                    list_len as int == self.adj(v as int).len(),
                    c <= i,
                    c as int == self.adj(v as int).subrange(0, i as int).filter(
                        dep_pending::<PT>(v as int, Seq::<NodeRef>::empty()),
                    ).len(),
                decreases list_len - i,
            {
                let e = self.edges[v][i];
                proof {
                    lemma_filter_take_step(
                        self.adj(v as int),
                        i as int,
                        dep_pending::<PT>(v as int, Seq::<NodeRef>::empty()),
                    );
                }
                if e.dst_node.0 == v {
                    proof {
                        assert(dep_pending::<PT>(v as int, Seq::<NodeRef>::empty())(
                            self.adj(v as int)[i as int],
                        ));
                    }
                    c = c + 1;
                } else {
                    proof {
                        assert(!dep_pending::<PT>(v as int, Seq::<NodeRef>::empty())(
                            self.adj(v as int)[i as int],
                        ));
                    }
                }
                i = i + 1;
            }
            proof {
                lemma_filter_take_all(
                    self.adj(v as int),
                    dep_pending::<PT>(v as int, Seq::<NodeRef>::empty()),
                );
            }
            indeg.push(c);
            v = v + 1;
        }
        // seed the queue with the live zero-in-degree nodes, in handle order
        let mut queue: Vec<NodeRef> = Vec::new();
        let mut queued: Vec<bool> = vec_false(n_nodes);
        let mut v: usize = 0;
        proof {
            crate::seq_lemmas::lemma_num_true_all_false(queued@);
        }
        while v < n_nodes
            invariant
                0 <= v <= n_nodes,
                n_nodes as int == self.node_count(),
                indeg@.len() == n_nodes,
                queued@.len() == n_nodes,
                forall|u: int|
                    0 <= u < n_nodes ==> #[trigger] indeg@[u] as int == dep_cnt(
                        *self,
                        u,
                        Seq::<NodeRef>::empty(),
                    ),
                num_true(queued@) == queue@.len(),
                queue@.no_duplicates(),
                forall|k: int|
                    0 <= k < queue@.len() ==> (#[trigger] queue@[k]).0 < n_nodes && self.node_live(
                        queue@[k].0 as int,
                    ) && queued@[queue@[k].0 as int],
                forall|u: int|
                    0 <= u < n_nodes ==> (#[trigger] queued@[u] <==> (u < v && self.node_live(u)
                        && indeg@[u] == 0)),
                forall|u: int|
                    0 <= u < n_nodes && #[trigger] queued@[u] ==> queue@.contains(
                        NodeRef(u as usize),
                    ),
            decreases n_nodes - v,
        {
            let live = !contains_node(&self.free_nodes, NodeRef(v));
            if live && indeg[v] == 0 {
                let ghost qd0 = queued@;
                let ghost q0 = queue@;
                queued.set(v, true);
                queue.push(NodeRef(v));
                proof {
                    lemma_num_true_set(qd0, v as int);
                    assert forall|i1: int, j1: int|
                        0 <= i1 < j1 < queue@.len() implies queue@[i1] != queue@[j1] by {
                        if j1 < queue@.len() - 1 {
                            assert(queue@[i1] == q0[i1] && queue@[j1] == q0[j1]);
                        } else {
                            assert(queue@[j1] == NodeRef(v));
                            assert(queue@[i1] == q0[i1]);
                            assert(qd0[q0[i1].0 as int]);
                        }
                    }
                    assert forall|u: int|
                        0 <= u < n_nodes && #[trigger] queued@[u] implies queue@.contains(
                        NodeRef(u as usize),
                    ) by {
                        if u == v as int {
                            assert(queue@[queue@.len() - 1] == NodeRef(v));
                            assert(NodeRef(u as usize) == NodeRef(v));
                        } else {
                            assert(qd0[u]);
                            let k = choose|k: int| 0 <= k < q0.len() && q0[k] == NodeRef(u as usize);
                            assert(queue@[k] == NodeRef(u as usize));
                        }
                    }
                }
            }
            v = v + 1;
        }
        // Kahn's walk: pop, record, decrement the dependents
        let mut head: usize = 0;
        proof {
            assert forall|u: int|
                0 <= u < n_nodes implies #[trigger] indeg@[u] as int == dep_cnt(
                *self,
                u,
                queue@.subrange(0, 0),
            ) by {
                assert(queue@.subrange(0, 0) =~= Seq::<NodeRef>::empty());
            }
        }
        while head < queue.len()
            invariant
                n_nodes as int == self.node_count(),
                indeg@.len() == n_nodes,
                queued@.len() == n_nodes,
                0 <= head <= queue@.len(),
                num_true(queued@) == queue@.len(),
                queue@.no_duplicates(),
                forall|k: int|
                    0 <= k < queue@.len() ==> (#[trigger] queue@[k]).0 < n_nodes && self.node_live(
                        queue@[k].0 as int,
                    ) && queued@[queue@[k].0 as int],
                forall|u: int|
                    0 <= u < n_nodes && #[trigger] queued@[u] ==> queue@.contains(
                        NodeRef(u as usize),
                    ),
                forall|u: int|
                    0 <= u < n_nodes ==> #[trigger] indeg@[u] as int == dep_cnt(
                        *self,
                        u,
                        queue@.subrange(0, head as int),
                    ),
                forall|u: int|
                    0 <= u < n_nodes && self.node_live(u) ==> (#[trigger] queued@[u] <==> indeg@[u]
                        == 0),
                forall|k: int, i: int|
                    0 <= k < head && 0 <= i < self.adj(queue@[k].0 as int).len() && (
                    #[trigger] self.adj(queue@[k].0 as int)[i]).dst_node == queue@[k] ==> exists|
                        k2: int,
                    |
                        0 <= k2 < k && queue@[k2] == self.adj(queue@[k].0 as int)[i].src_node,
            decreases n_nodes - num_true(queued@), queue@.len() - head,
        {
            proof {
                lemma_num_true_bound(queued@);
            }
            let node = queue[head];
            let ghost proc = queue@.subrange(0, head as int);
            let ghost proc2 = queue@.subrange(0, head as int + 1);
            proof {
                assert(proc2 =~= proc.push(node));
                assert(!proc.contains(node)) by {
                    if proc.contains(node) {
                        let k = choose|k: int| 0 <= k < proc.len() && proc[k] == node;
                        assert(queue@[k] == queue@[head as int]);
                    }
                }
                // the popped node has no pending dependency edge: record
                // the topological-soundness fact for position `head`
                assert(indeg@[node.0 as int] == 0);
                assert(dep_cnt(*self, node.0 as int, proc) == 0);
                lemma_filter_empty_no_match(
                    self.adj(node.0 as int),
                    dep_pending::<PT>(node.0 as int, proc),
                );
                assert forall|i: int|
                    0 <= i < self.adj(node.0 as int).len() && (#[trigger] self.adj(
                        node.0 as int,
                    )[i]).dst_node == node implies exists|k2: int|
                    0 <= k2 < head && queue@[k2] == self.adj(node.0 as int)[i].src_node by {
                    assert(!dep_pending::<PT>(node.0 as int, proc)(self.adj(node.0 as int)[i]));
                    assert(proc.contains(self.adj(node.0 as int)[i].src_node));
                    let k2 = choose|k2: int|
                        0 <= k2 < proc.len() && proc[k2] == self.adj(node.0 as int)[i].src_node;
                    assert(queue@[k2] == self.adj(node.0 as int)[i].src_node);
                }
                // switch the counting invariant to treat `node` as processed
                assert forall|u: int|
                    0 <= u < n_nodes implies #[trigger] indeg@[u] as int == dep_cnt(
                    *self,
                    u,
                    proc2,
                ) + self.adj(node.0 as int).subrange(0, self.adj(node.0 as int).len() as int).filter(
                    from_to::<PT>(node, u),
                ).len() by {
                    lemma_dep_cnt_extend(*self, u, proc, node);
                    lemma_cross_count(*self, node, u);
                    assert(self.adj(node.0 as int).subrange(
                        0,
                        self.adj(node.0 as int).len() as int,
                    ) =~= self.adj(node.0 as int));
                }
            }
            let list_len = self.edges[node.0].len();
            let mut j: usize = 0;
            let ghost len0 = queue@.len();
            while j < list_len
                invariant
                    n_nodes as int == self.node_count(),
                    indeg@.len() == n_nodes,
                    queued@.len() == n_nodes,
                    0 <= head < queue@.len(),
                    queue@.len() >= len0,
                    node == queue@[head as int],
                    node.0 < n_nodes,
                    list_len as int == self.adj(node.0 as int).len(),
                    0 <= j <= list_len,
                    proc2 == queue@.subrange(0, head as int + 1),
                    num_true(queued@) == queue@.len(),
                    queue@.no_duplicates(),
                    forall|k: int|
                        0 <= k < queue@.len() ==> (#[trigger] queue@[k]).0 < n_nodes
                            && self.node_live(queue@[k].0 as int) && queued@[queue@[k].0 as int],
                    forall|u: int|
                        0 <= u < n_nodes && #[trigger] queued@[u] ==> queue@.contains(
                            NodeRef(u as usize),
                        ),
                    forall|u: int|
                        0 <= u < n_nodes ==> #[trigger] indeg@[u] as int == dep_cnt(
                            *self,
                            u,
                            proc2,
                        ) + self.adj(node.0 as int).subrange(
                            j as int,
                            self.adj(node.0 as int).len() as int,
                        ).filter(from_to::<PT>(node, u)).len(),
                    forall|u: int|
                        0 <= u < n_nodes && self.node_live(u) ==> (#[trigger] queued@[u]
                            <==> indeg@[u] == 0),
                    forall|k: int, i: int|
                        0 <= k < head + 1 && 0 <= i < self.adj(queue@[k].0 as int).len() && (
                        #[trigger] self.adj(queue@[k].0 as int)[i]).dst_node == queue@[k]
                            ==> exists|k2: int|
                            0 <= k2 < k && queue@[k2] == self.adj(queue@[k].0 as int)[i].src_node,
                decreases list_len - j,
            {
                let e = self.edges[node.0][j];
                proof {
                    lemma_filter_suffix_step(
                        self.adj(node.0 as int),
                        j as int,
                        from_to::<PT>(node, e.dst_node.0 as int),
                    );
                }
                if e.src_node == node {
                    let d = e.dst_node;
                    proof {
                        assert(self.edge_wf(self.adj(node.0 as int)[j as int]));
                        assert(self.node_live(d.0 as int));
                        assert(from_to::<PT>(node, d.0 as int)(self.adj(node.0 as int)[j as int]));
                        lemma_filter_match_nonempty(
                            self.adj(node.0 as int).subrange(
                                j as int,
                                self.adj(node.0 as int).len() as int,
                            ),
                            from_to::<PT>(node, d.0 as int),
                            0,
                        );
                        assert(indeg@[d.0 as int] > 0);
                    }
                    let val = indeg[d.0];
                    indeg.set(d.0, val - 1);
                    proof {
                        assert forall|u: int|
                            0 <= u < n_nodes implies #[trigger] indeg@[u] as int == dep_cnt(
                            *self,
                            u,
                            proc2,
                        ) + self.adj(node.0 as int).subrange(
                            j as int + 1,
                            self.adj(node.0 as int).len() as int,
                        ).filter(from_to::<PT>(node, u)).len() by {
                            lemma_filter_suffix_step(
                                self.adj(node.0 as int),
                                j as int,
                                from_to::<PT>(node, u),
                            );
                        }
                    }
                    if val - 1 == 0 {
                        proof {
                            assert(!queued@[d.0 as int]);
                        }
                        let ghost qd0 = queued@;
                        let ghost q0 = queue@;
                        queued.set(d.0, true);
                        queue.push(d);
                        proof {
                            lemma_num_true_set(qd0, d.0 as int);
                            assert(queue@.subrange(0, head as int + 1) =~= q0.subrange(
                                0,
                                head as int + 1,
                            ));
                            assert forall|i1: int, j1: int|
                                0 <= i1 < j1 < queue@.len() implies queue@[i1] != queue@[j1] by {
                                if j1 < queue@.len() - 1 {
                                    assert(queue@[i1] == q0[i1] && queue@[j1] == q0[j1]);
                                } else {
                                    assert(queue@[j1] == d);
                                    assert(queue@[i1] == q0[i1]);
                                    assert(qd0[q0[i1].0 as int]);
                                }
                            }
                            assert forall|u: int|
                                0 <= u < n_nodes && #[trigger] queued@[u] implies queue@.contains(
                                NodeRef(u as usize),
                            ) by {
                                if u == d.0 as int {
                                    assert(queue@[queue@.len() - 1] == d);
                                    assert(NodeRef(u as usize) == d);
                                } else {
                                    assert(qd0[u]);
                                    let k = choose|k: int|
                                        0 <= k < q0.len() && q0[k] == NodeRef(u as usize);
                                    assert(queue@[k] == NodeRef(u as usize));
                                }
                            }
                            assert forall|k: int, i: int|
                                0 <= k < head + 1 && 0 <= i < self.adj(queue@[k].0 as int).len()
                                    && (#[trigger] self.adj(queue@[k].0 as int)[i]).dst_node
                                    == queue@[k] implies exists|k2: int|
                                0 <= k2 < k && queue@[k2] == self.adj(
                                    queue@[k].0 as int,
                                )[i].src_node by {
                                assert(queue@[k] == q0[k]);
                                let k2 = choose|k2: int|
                                    0 <= k2 < k && q0[k2] == self.adj(q0[k].0 as int)[i].src_node;
                                assert(queue@[k2] == q0[k2]);
                            }
                        }
                    }
                } else {
                    proof {
                        assert forall|u: int|
                            0 <= u < n_nodes implies #[trigger] indeg@[u] as int == dep_cnt(
                            *self,
                            u,
                            proc2,
                        ) + self.adj(node.0 as int).subrange(
                            j as int + 1,
                            self.adj(node.0 as int).len() as int,
                        ).filter(from_to::<PT>(node, u)).len() by {
                            lemma_filter_suffix_step(
                                self.adj(node.0 as int),
                                j as int,
                                from_to::<PT>(node, u),
                            );
                        }
                    }
                }
                j = j + 1;
            }
            head = head + 1;
            proof {
                assert forall|u: int|
                    0 <= u < n_nodes implies #[trigger] indeg@[u] as int == dep_cnt(
                    *self,
                    u,
                    queue@.subrange(0, head as int),
                ) by {
                    assert(queue@.subrange(0, head as int) == proc2);
                    assert(self.adj(node.0 as int).subrange(
                        list_len as int,
                        self.adj(node.0 as int).len() as int,
                    ) =~= Seq::<Edge<PT>>::empty());
                    assert(Seq::<Edge<PT>>::empty().filter(from_to::<PT>(node, u)) =~= Seq::<
                        Edge<PT>,
                    >::empty()) by {
                        reveal(Seq::filter);
                    }
                }
            }
        }
        // with the queue exhausted, every live node has been processed
        proof {
            assert(queue@.subrange(0, head as int) =~= queue@);
            assert(every_unqueued_has_pending(*self, queue@)) by {
                assert forall|u: int|
                    #![trigger self.node_live(u), queue@.contains(NodeRef(u as usize))]
                    0 <= u < self.node_count() && self.node_live(u) && !queue@.contains(
                        NodeRef(u as usize),
                    ) implies exists|i: int|
                    0 <= i < self.adj(u).len() && (#[trigger] self.adj(u)[i]).dst_node.0 == u
                        && !queue@.contains(self.adj(u)[i].src_node) by {
                    assert(!queued@[u]);
                    assert(indeg@[u] != 0);
                    assert(dep_cnt(*self, u, queue@) > 0);
                    let f = self.adj(u).filter(dep_pending::<PT>(u, queue@));
                    self.adj(u).lemma_filter_pred(dep_pending::<PT>(u, queue@), 0);
                    assert(f.contains(f[0]));
                    self.adj(u).lemma_filter_contains_rev(dep_pending::<PT>(u, queue@), f[0]);
                    let i = choose|i: int| 0 <= i < self.adj(u).len() && self.adj(u)[i] == f[0];
                    assert((#[trigger] self.adj(u)[i]).dst_node.0 == u && !queue@.contains(
                        self.adj(u)[i].src_node,
                    ));
                }
            }
            lemma_all_live_queued(*self, queue@);
        }
        queue
    }
}

/// One step of the compiled schedule: a node's identifier, its input
/// buffers with their delay compensations, and its output buffers.
#[derive(Clone, Debug)]
pub struct Scheduled<N, P, PT: PortType> {
    /// The node's user identifier.
    pub node: N,
    /// For every port with incoming edges: the port's identifier and, per
    /// incoming edge, the producer's buffer and the edge's delay
    /// compensation.
    pub inputs: Vec<(P, Vec<(Buffer<PT>, u64)>)>,
    /// For every port with outgoing edges: the port's identifier and the
    /// buffer assigned to it.
    pub outputs: Vec<(P, Buffer<PT>)>,
}

/// The dependency edges of node `n` (their destination is `n`).
pub open spec fn dep_of<PT: PortType>(n: int) -> spec_fn(Edge<PT>) -> bool {
    |e: Edge<PT>| e.dst_node.0 == n
}

/// The edges leaving port `p`.
pub open spec fn out_of_port<PT: PortType>(p: PortRef) -> spec_fn(Edge<PT>) -> bool {
    |e: Edge<PT>| e.src_port == p
}

/// The edges entering port `p`.
pub open spec fn in_of_port<PT: PortType>(p: PortRef) -> spec_fn(Edge<PT>) -> bool {
    |e: Edge<PT>| e.dst_port == p
}

/// Saturating 64-bit addition: latency sums clamp at the maximum rather
/// than wrap.
pub open spec fn sat_add(a: u64, b: u64) -> u64 {
    if a + b > u64::MAX {
        u64::MAX
    } else {
        (a + b) as u64
    }
}

/// The latency contributed along edge `e`: the source's arrival latency
/// plus the source's intrinsic delay.
pub open spec fn edge_lat<N, P, PT: PortType>(g: Graph<N, P, PT>, lat: Seq<u64>, e: Edge<PT>) -> u64 {
    sat_add(lat[e.src_node.0 as int], g.delay(e.src_node.0 as int))
}

/// The latency table is correct at node `n`: `lat[n]` is the maximum of
/// the latencies contributed by its dependency edges, or 0 without any.
pub open spec fn lat_ok_at<N, P, PT: PortType>(g: Graph<N, P, PT>, lat: Seq<u64>, n: int) -> bool {
    let deps = g.adj(n).filter(dep_of::<PT>(n));
    &&& forall|i: int| 0 <= i < deps.len() ==> edge_lat(g, lat, #[trigger] deps[i]) <= lat[n]
    &&& (deps.len() > 0 ==> exists|i: int|
        0 <= i < deps.len() && edge_lat(g, lat, #[trigger] deps[i]) == lat[n])
    &&& (deps.len() == 0 ==> lat[n] == 0)
}

/// The ports of node `n` that produce output.
pub open spec fn port_has_outgoing<N, P, PT: PortType>(g: Graph<N, P, PT>, n: int) -> spec_fn(
    PortRef,
) -> bool {
    |p: PortRef| g.adj(n).filter(out_of_port::<PT>(p)).len() > 0
}

/// The ports of node `n` that consume input.
pub open spec fn port_has_incoming<N, P, PT: PortType>(g: Graph<N, P, PT>, n: int) -> spec_fn(
    PortRef,
) -> bool {
    |p: PortRef| g.adj(n).filter(in_of_port::<PT>(p)).len() > 0
}

/// Is an output buffer assigned?
pub open spec fn is_assigned<PT: PortType>() -> spec_fn(Option<Buffer<PT>>) -> bool {
    |o: Option<Buffer<PT>>| o is Some
}

/// After the first `k` nodes of `ord` are compiled, exactly the producing
/// ports of those nodes carry a buffer assignment, each of the port's type.
pub open spec fn asg_progress<N, P, PT: PortType>(
    g: Graph<N, P, PT>,
    ord: Seq<NodeRef>,
    k: int,
    asg: Seq<Option<Buffer<PT>>>,
) -> bool {
    &&& asg.len() == g.port_count()
    &&& forall|p: int|
        0 <= p < g.port_count() ==> ((#[trigger] asg[p]) is Some <==> (g.port_live(p) && (exists|
            k2: int,
        |
            0 <= k2 < k && (#[trigger] ord[k2]).0 == g.port_owner(p)) && g.adj(
            g.port_owner(p),
        ).filter(out_of_port::<PT>(PortRef(p as usize))).len() > 0))
    &&& forall|p: int|
        0 <= p < g.port_count() && (#[trigger] asg[p]) is Some ==> asg[p].unwrap().type_.type_index()
            == g.port_ty(p).type_index()
}

/// The output list of one entry matches the producing ports `ops`.
pub open spec fn outputs_entries_ok<N, P: Clone, PT: PortType>(
    g: Graph<N, P, PT>,
    asg: Seq<Option<Buffer<PT>>>,
    ops: Seq<PortRef>,
    outs: Seq<(P, Buffer<PT>)>,
) -> bool {
    &&& outs.len() == ops.len()
    &&& forall|i: int|
        0 <= i < ops.len() ==> {
            let p = (#[trigger] ops[i]).0 as int;
            &&& asg[p] is Some
            &&& outs[i].1 == asg[p].unwrap()
            &&& cloned::<P>(g.port_identifiers@[p], outs[i].0)
        }
}

/// One port's input tuples match its incoming edges `es`: per edge, the
/// producer's assigned buffer and the delay compensation that aligns the
/// edge's latency with the consumer's arrival latency.
pub open spec fn input_edges_ok<N, P: Clone, PT: PortType>(
    g: Graph<N, P, PT>,
    lat: Seq<u64>,
    asg: Seq<Option<Buffer<PT>>>,
    n: int,
    es: Seq<Edge<PT>>,
    bufs: Seq<(Buffer<PT>, u64)>,
) -> bool {
    &&& bufs.len() == es.len()
    &&& forall|t: int|
        0 <= t < es.len() ==> {
            let q = (#[trigger] es[t]).src_port.0 as int;
            &&& asg[q] is Some
            &&& bufs[t].0 == asg[q].unwrap()
            &&& bufs[t].1 as int == lat[n] as int - edge_lat(g, lat, es[t]) as int
        }
}

/// The input list of one entry matches the consuming ports `ips`.
pub open spec fn inputs_entries_ok<N, P: Clone, PT: PortType>(
    g: Graph<N, P, PT>,
    lat: Seq<u64>,
    asg: Seq<Option<Buffer<PT>>>,
    n: int,
    ips: Seq<PortRef>,
    ins: Seq<(P, Vec<(Buffer<PT>, u64)>)>,
) -> bool {
    &&& ins.len() == ips.len()
    &&& forall|i: int|
        0 <= i < ips.len() ==> {
            &&& cloned::<P>(g.port_identifiers@[(#[trigger] ips[i]).0 as int], ins[i].0)
            &&& input_edges_ok(
                g,
                lat,
                asg,
                n,
                g.adj(n).filter(in_of_port::<PT>(ips[i])),
                ins[i].1@,
            )
        }
}

/// One schedule entry is correct for node `n`.
pub open spec fn entry_ok<N: Clone, P: Clone, PT: PortType>(
    g: Graph<N, P, PT>,
    lat: Seq<u64>,
    asg: Seq<Option<Buffer<PT>>>,
    n: int,
    entry: Scheduled<N, P, PT>,
) -> bool {
    &&& cloned::<N>(g.node_identifiers@[n], entry.node)
    &&& outputs_entries_ok(g, asg, g.node_ports(n).filter(port_has_outgoing(g, n)), entry.outputs@)
    &&& inputs_entries_ok(
        g,
        lat,
        asg,
        n,
        g.node_ports(n).filter(port_has_incoming(g, n)),
        entry.inputs@,
    )
}

/// `ord` is a topological order of exactly the live nodes.
pub open spec fn ord_valid<N, P, PT: PortType>(g: Graph<N, P, PT>, ord: Seq<NodeRef>) -> bool {
    &&& forall|k: int| 0 <= k < ord.len() ==> g.node_live((#[trigger] ord[k]).0 as int)
    &&& ord.no_duplicates()
    &&& forall|v: int|
        0 <= v < g.node_count() && #[trigger] g.node_live(v) ==> ord.contains(NodeRef(v as usize))
    &&& forall|k: int, i: int|
        0 <= k < ord.len() && 0 <= i < g.adj(ord[k].0 as int).len() && (#[trigger] g.adj(
            ord[k].0 as int,
        )[i]).dst_node == ord[k] ==> exists|k2: int|
            0 <= k2 < k && ord[k2] == g.adj(ord[k].0 as int)[i].src_node
}

/// What `compile` promises: a topological order of the live nodes exists,
/// with a latency table and a buffer assignment, such that the returned
/// entries realize them one node per entry, in order.
pub open spec fn schedule_ok<N: Clone, P: Clone, PT: PortType>(
    g: Graph<N, P, PT>,
    ord: Seq<NodeRef>,
    lat: Seq<u64>,
    asg: Seq<Option<Buffer<PT>>>,
    out: Seq<Scheduled<N, P, PT>>,
) -> bool {
    &&& ord_valid(g, ord)
    &&& lat.len() == g.node_count()
    &&& forall|k: int| 0 <= k < ord.len() ==> lat_ok_at(g, lat, (#[trigger] ord[k]).0 as int)
    &&& asg_progress(g, ord, ord.len() as int, asg)
    &&& out.len() == ord.len()
    &&& forall|k: int|
        0 <= k < ord.len() ==> entry_ok(g, lat, asg, (#[trigger] ord[k]).0 as int, out[k])
}

/// Saturating 64-bit addition, executably.
fn sat_add_exec(a: u64, b: u64) -> (r: u64)
    ensures
        r == sat_add(a, b),
{
    match a.checked_add(b) {
        Some(x) => x,
        None => u64::MAX,
    }
}

/// How many edges of `v` leave port `p`.
fn count_outgoing<PT: PortType>(v: &Vec<Edge<PT>>, p: PortRef) -> (c: usize)
    ensures
        c as int == v@.filter(out_of_port::<PT>(p)).len(),
{
    let mut c: usize = 0;
    let mut i: usize = 0;
    proof {
        assert(v@.subrange(0, 0) =~= Seq::<Edge<PT>>::empty());
        assert(Seq::<Edge<PT>>::empty().filter(out_of_port::<PT>(p)) =~= Seq::<Edge<PT>>::empty())
            by {
            reveal(Seq::filter);
        }
    }
    while i < v.len()
        invariant
            0 <= i <= v@.len(),
            c <= i,
            c as int == v@.subrange(0, i as int).filter(out_of_port::<PT>(p)).len(),
        decreases v@.len() - i,
    {
        let e = v[i];
        proof {
            lemma_filter_take_step(v@, i as int, out_of_port::<PT>(p));
        }
        if e.src_port == p {
            proof {
                assert(out_of_port::<PT>(p)(v@[i as int]));
            }
            c = c + 1;
        } else {
            proof {
                assert(!out_of_port::<PT>(p)(v@[i as int]));
            }
        }
        i = i + 1;
    }
    proof {
        lemma_filter_take_all(v@, out_of_port::<PT>(p));
    }
    c
}

/// A vector of `n` empty assignments.
fn vec_none<PT: PortType>(n: usize) -> (r: Vec<Option<Buffer<PT>>>)
    ensures
        r@.len() == n,
        forall|i: int| 0 <= i < n ==> (#[trigger] r@[i]) is None,
{
    let mut r: Vec<Option<Buffer<PT>>> = Vec::new();
    let mut i: usize = 0;
    while i < n
        invariant
            0 <= i <= n,
            r@.len() == i,
            forall|j: int| 0 <= j < i ==> (#[trigger] r@[j]) is None,
        decreases n - i,
    {
        r.push(None);
        i = i + 1;
    }
    r
}

/// A vector of `n` zero counters.
fn vec_zero(n: usize) -> (r: Vec<u64>)
    ensures
        r@.len() == n,
        forall|i: int| 0 <= i < n ==> (#[trigger] r@[i]) == 0,
{
    let mut r: Vec<u64> = Vec::new();
    let mut i: usize = 0;
    while i < n
        invariant
            0 <= i <= n,
            r@.len() == i,
            forall|j: int| 0 <= j < i ==> (#[trigger] r@[j]) == 0,
        decreases n - i,
    {
        r.push(0);
        i = i + 1;
    }
    r
}

/// A vector of `n` zero reference counts.
fn vec_zero_usize(n: usize) -> (r: Vec<usize>)
    ensures
        r@.len() == n,
        forall|i: int| 0 <= i < n ==> (#[trigger] r@[i]) == 0,
{
    let mut r: Vec<usize> = Vec::new();
    let mut i: usize = 0;
    while i < n
        invariant
            0 <= i <= n,
            r@.len() == i,
            forall|j: int| 0 <= j < i ==> (#[trigger] r@[j]) == 0,
        decreases n - i,
    {
        r.push(0);
        i = i + 1;
    }
    r
}

/// A buffer assignment stays correct when empty slots are filled in and
/// filled slots are left alone.
proof fn lemma_entry_parts_monotone<N, P: Clone, PT: PortType>(
    g: Graph<N, P, PT>,
    lat: Seq<u64>,
    asg0: Seq<Option<Buffer<PT>>>,
    asg1: Seq<Option<Buffer<PT>>>,
    n: int,
    ops: Seq<PortRef>,
    outs: Seq<(P, Buffer<PT>)>,
    ips: Seq<PortRef>,
    ins: Seq<(P, Vec<(Buffer<PT>, u64)>)>,
)
    requires
        asg1.len() == asg0.len(),
        forall|q: int|
            0 <= q < asg0.len() && (#[trigger] asg0[q]) is Some ==> asg1[q] == asg0[q],
        outputs_entries_ok(g, asg0, ops, outs),
        inputs_entries_ok(g, lat, asg0, n, ips, ins),
        forall|i: int| 0 <= i < ops.len() ==> 0 <= (#[trigger] ops[i]).0 < asg0.len(),
        forall|i: int, t: int|
            0 <= i < ips.len() && 0 <= t < g.adj(n).filter(
                in_of_port::<PT>(#[trigger] ips[i]),
            ).len() ==> 0 <= (#[trigger] g.adj(n).filter(in_of_port::<PT>(ips[i]))[t]).src_port.0
                < asg0.len(),
    ensures
        outputs_entries_ok(g, asg1, ops, outs),
        inputs_entries_ok(g, lat, asg1, n, ips, ins),
{
    assert forall|i: int|
        0 <= i < ops.len() implies {
        let p = (#[trigger] ops[i]).0 as int;
        &&& asg1[p] is Some
        &&& outs[i].1 == asg1[p].unwrap()
        &&& cloned::<P>(g.port_identifiers@[p], outs[i].0)
    } by {
        let p = ops[i].0 as int;
        assert(asg0[p] is Some);
        assert(asg1[p] == asg0[p]);
    }
    assert forall|i: int|
        0 <= i < ips.len() implies {
        &&& cloned::<P>(g.port_identifiers@[(#[trigger] ips[i]).0 as int], ins[i].0)
        &&& input_edges_ok(g, lat, asg1, n, g.adj(n).filter(in_of_port::<PT>(ips[i])), ins[i].1@)
    } by {
        let es = g.adj(n).filter(in_of_port::<PT>(ips[i]));
        assert(input_edges_ok(g, lat, asg0, n, es, ins[i].1@));
        assert forall|t: int|
            0 <= t < es.len() implies {
            let q = (#[trigger] es[t]).src_port.0 as int;
            &&& asg1[q] is Some
            &&& ins[i].1@[t].0 == asg1[q].unwrap()
            &&& ins[i].1@[t].1 as int == lat[n] as int - edge_lat(g, lat, es[t]) as int
        } by {
            let q = es[t].src_port.0 as int;
            assert(asg0[q] is Some);
            assert(asg1[q] == asg0[q]);
        }
    }
}

/// Every port kept by a port filter over a live node's list is in range.
proof fn lemma_port_filter_bounds<N, P, PT: PortType>(
    g: Graph<N, P, PT>,
    n: int,
    base: Seq<PortRef>,
    pred: spec_fn(PortRef) -> bool,
)
    requires
        g.wf(),
        0 <= n < g.node_count(),
        forall|i: int| 0 <= i < base.len() ==> g.node_ports(n).contains(#[trigger] base[i]),
    ensures
        forall|i: int|
            0 <= i < base.filter(pred).len() ==> 0 <= (#[trigger] base.filter(pred)[i]).0
                < g.port_count(),
{
    assert forall|i: int|
        0 <= i < base.filter(pred).len() implies 0 <= (#[trigger] base.filter(pred)[i]).0
        < g.port_count() by {
        let q = base.filter(pred)[i];
        assert(base.filter(pred).contains(q));
        base.lemma_filter_contains_rev(pred, q);
        let k = choose|k: int| 0 <= k < base.len() && base[k] == q;
        assert(g.node_ports(n).contains(q));
        let t = choose|t: int| 0 <= t < g.node_ports(n).len() && g.node_ports(n)[t] == q;
        assert(g.port_live((#[trigger] g.node_ports(n)[t]).0 as int));
    }
}

/// Every source port of an edge filter over a live node's list is in range.
proof fn lemma_edge_filter_src_bounds<N, P, PT: PortType>(
    g: Graph<N, P, PT>,
    n: int,
    pred: spec_fn(Edge<PT>) -> bool,
)
    requires
        g.wf(),
        0 <= n < g.node_count(),
    ensures
        forall|t: int|
            0 <= t < g.adj(n).filter(pred).len() ==> 0 <= (#[trigger] g.adj(n).filter(
                pred,
            )[t]).src_port.0 < g.port_count(),
{
    assert forall|t: int|
        0 <= t < g.adj(n).filter(pred).len() implies 0 <= (#[trigger] g.adj(n).filter(
        pred,
    )[t]).src_port.0 < g.port_count() by {
        let e = g.adj(n).filter(pred)[t];
        assert(g.adj(n).filter(pred).contains(e));
        g.adj(n).lemma_filter_contains_rev(pred, e);
        let k = choose|k: int| 0 <= k < g.adj(n).len() && g.adj(n)[k] == e;
        assert(g.edge_wf(g.adj(n)[k]));
        assert(g.port_live(e.src_port.0 as int));
    }
}

/// A finished entry stays correct when further assignments are filled in.
proof fn lemma_entry_ok_monotone<N: Clone, P: Clone, PT: PortType>(
    g: Graph<N, P, PT>,
    lat: Seq<u64>,
    asg0: Seq<Option<Buffer<PT>>>,
    asg1: Seq<Option<Buffer<PT>>>,
    n: int,
    entry: Scheduled<N, P, PT>,
)
    requires
        g.wf(),
        0 <= n < g.node_count(),
        asg0.len() == g.port_count(),
        asg1.len() == asg0.len(),
        forall|q: int|
            0 <= q < asg0.len() && (#[trigger] asg0[q]) is Some ==> asg1[q] == asg0[q],
        entry_ok(g, lat, asg0, n, entry),
    ensures
        entry_ok(g, lat, asg1, n, entry),
{
    let ips = g.node_ports(n).filter(port_has_incoming(g, n));
    lemma_port_filter_bounds(g, n, g.node_ports(n), port_has_outgoing(g, n));
    lemma_port_filter_bounds(g, n, g.node_ports(n), port_has_incoming(g, n));
    assert forall|i: int, t: int|
        0 <= i < ips.len() && 0 <= t < g.adj(n).filter(
            in_of_port::<PT>(#[trigger] ips[i]),
        ).len() implies 0 <= (#[trigger] g.adj(n).filter(in_of_port::<PT>(ips[i]))[t]).src_port.0
        < asg0.len() by {
        lemma_edge_filter_src_bounds(g, n, in_of_port::<PT>(ips[i]));
    }
    lemma_entry_parts_monotone(
        g,
        lat,
        asg0,
        asg1,
        n,
        g.node_ports(n).filter(port_has_outgoing(g, n)),
        entry.outputs@,
        ips,
        entry.inputs@,
    );
}

impl<N, P, PT: PortType> Graph<N, P, PT> {
    /// Compute the arrival latency of every node along the topological
    /// order: the maximum over its dependency edges of the source's
    /// arrival latency plus the source's intrinsic delay.
    #[verifier::rlimit(100)]
    fn solve_latencies(&self, ord: &Vec<NodeRef>) -> (lat: Vec<u64>)
        requires
            self.wf(),
            ord_valid(*self, ord@),
        ensures
            lat@.len() == self.node_count(),
            forall|k: int|
                0 <= k < ord@.len() ==> lat_ok_at(*self, lat@, (#[trigger] ord@[k]).0 as int),
    {
        let n_nodes = self.ports.len();
        let mut lat: Vec<u64> = vec_zero(n_nodes);
        let mut k: usize = 0;
        while k < ord.len()
            invariant
                n_nodes as int == self.node_count(),
                lat@.len() == n_nodes,
                0 <= k <= ord@.len(),
                forall|k2: int|
                    0 <= k2 < k ==> lat_ok_at(*self, lat@, (#[trigger] ord@[k2]).0 as int),
            decreases ord@.len() - k,
        {
            let nref = ord[k];
            let n = nref.0;
            proof {
                assert(self.node_live(n as int));
            }
            let list_len = self.edges[n].len();
            let mut mx: u64 = 0;
            let mut i: usize = 0;
            proof {
                assert(self.adj(n as int).subrange(0, 0) =~= Seq::<Edge<PT>>::empty());
                assert(Seq::<Edge<PT>>::empty().filter(dep_of::<PT>(n as int)) =~= Seq::<
                    Edge<PT>,
                >::empty()) by {
                    reveal(Seq::filter);
                }
            }
            while i < list_len
                invariant
                    n_nodes as int == self.node_count(),
                    lat@.len() == n_nodes,
                    0 <= k < ord@.len(),
                    nref == ord@[k as int],
                    n == nref.0,
                    n < n_nodes,
                    list_len as int == self.adj(n as int).len(),
                    0 <= i <= list_len,
                    ({
                        let deps = self.adj(n as int).subrange(0, i as int).filter(
                            dep_of::<PT>(n as int),
                        );
                        &&& forall|t: int|
                            0 <= t < deps.len() ==> edge_lat(*self, lat@, #[trigger] deps[t]) <= mx
                        &&& (deps.len() == 0 ==> mx == 0)
                        &&& (deps.len() > 0 ==> exists|t: int|
                            0 <= t < deps.len() && edge_lat(*self, lat@, #[trigger] deps[t]) == mx)
                    }),
                decreases list_len - i,
            {
                let ghost deps0 = self.adj(n as int).subrange(0, i as int).filter(
                    dep_of::<PT>(n as int),
                );
                let e = self.edges[n][i];
                proof {
                    lemma_filter_take_step(self.adj(n as int), i as int, dep_of::<PT>(n as int));
                }
                if e.dst_node == nref {
                    proof {
                        assert(dep_of::<PT>(n as int)(self.adj(n as int)[i as int]));
                        assert(self.edge_wf(self.adj(n as int)[i as int]));
                        assert(self.node_live(e.src_node.0 as int));
                    }
                    let src = e.src_node.0;
                    let le = sat_add_exec(lat[src], self.delays[src]);
                    proof {
                        assert(le == edge_lat(*self, lat@, self.adj(n as int)[i as int]));
                    }
                    if le > mx {
                        mx = le;
                    }
                    proof {
                        let deps = self.adj(n as int).subrange(0, i + 1).filter(
                            dep_of::<PT>(n as int),
                        );
                        assert(deps == deps0.push(self.adj(n as int)[i as int]));
                        assert(deps[deps.len() - 1] == self.adj(n as int)[i as int]);
                        assert forall|t: int|
                            0 <= t < deps.len() implies edge_lat(*self, lat@, #[trigger] deps[t])
                            <= mx by {
                            if t < deps.len() - 1 {
                                assert(deps[t] == deps0[t]);
                            }
                        }
                        if le == mx {
                            assert(edge_lat(*self, lat@, deps[deps.len() - 1]) == mx);
                        } else {
                            assert(deps0.len() > 0);
                            let t0 = choose|t0: int|
                                0 <= t0 < deps0.len() && edge_lat(*self, lat@, #[trigger] deps0[t0])
                                    == mx;
                            assert(deps[t0] == deps0[t0]);
                            assert(edge_lat(*self, lat@, deps[t0]) == mx);
                        }
                    }
                } else {
                    proof {
                        assert(!dep_of::<PT>(n as int)(self.adj(n as int)[i as int]));
                    }
                }
                i = i + 1;
            }
            proof {
                lemma_filter_take_all(self.adj(n as int), dep_of::<PT>(n as int));
            }
            let ghost lat0 = lat@;
            lat.set(n, mx);
            proof {
                let deps = self.adj(n as int).filter(dep_of::<PT>(n as int));
                assert forall|t: int|
                    0 <= t < deps.len() implies edge_lat(*self, lat@, #[trigger] deps[t])
                    == edge_lat(*self, lat0, deps[t]) by {
                    assert(deps.contains(deps[t]));
                    self.adj(n as int).lemma_filter_contains_rev(dep_of::<PT>(n as int), deps[t]);
                    let i2 = choose|i2: int|
                        0 <= i2 < self.adj(n as int).len() && self.adj(n as int)[i2] == deps[t];
                    assert(self.edge_wf(self.adj(n as int)[i2]));
                    assert(deps[t].src_node != deps[t].dst_node);
                    self.adj(n as int).lemma_filter_pred(dep_of::<PT>(n as int), t);
                    assert(deps[t].dst_node.0 == n);
                    assert(deps[t].src_node.0 != n);
                }
                assert(lat_ok_at(*self, lat@, n as int));
                assert forall|k2: int|
                    0 <= k2 < k + 1 implies lat_ok_at(*self, lat@, (#[trigger] ord@[k2]).0 as int) by {
                    if k2 < k {
                        let n2 = ord@[k2].0 as int;
                        assert(ord@[k2] != ord@[k as int]);
                        assert(n2 != n as int);
                        assert(lat@[n2] == lat0[n2]);
                        let deps2 = self.adj(n2).filter(dep_of::<PT>(n2));
                        assert forall|t: int|
                            0 <= t < deps2.len() implies edge_lat(*self, lat@, #[trigger] deps2[t])
                            == edge_lat(*self, lat0, deps2[t]) by {
                            assert(deps2.contains(deps2[t]));
                            self.adj(n2).lemma_filter_contains_rev(dep_of::<PT>(n2), deps2[t]);
                            let i2 = choose|i2: int|
                                0 <= i2 < self.adj(n2).len() && self.adj(n2)[i2] == deps2[t];
                            self.adj(n2).lemma_filter_pred(dep_of::<PT>(n2), t);
                            assert((#[trigger] self.adj(n2)[i2]).dst_node.0 == n2);
                            assert(self.adj(n2)[i2].dst_node == ord@[k2]);
                            let k3 = choose|k3: int|
                                0 <= k3 < k2 && ord@[k3] == self.adj(ord@[k2].0 as int)[i2].src_node;
                            assert(ord@[k3] != ord@[k as int]);
                            assert(deps2[t].src_node.0 != n);
                        }
                        assert(lat_ok_at(*self, lat0, n2));
                        assert(lat_ok_at(*self, lat@, n2)) by {
                            if deps2.len() > 0 {
                                let t0 = choose|t0: int|
                                    0 <= t0 < deps2.len() && edge_lat(*self, lat0, #[trigger] deps2[t0])
                                        == lat0[n2];
                                assert(edge_lat(*self, lat@, deps2[t0]) == lat@[n2]);
                            }
                        }
                    } else {
                        assert(lat_ok_at(*self, lat@, n as int));
                    }
                }
            }
            k = k + 1;
        }
        lat
    }
}

/// Mid-node buffer-assignment invariant: the producing ports of the first
/// `k` scheduled nodes, and of the first `pi` ports of the node being
/// compiled, carry an assignment.
pub open spec fn asg_mid<N, P, PT: PortType>(
    g: Graph<N, P, PT>,
    ord: Seq<NodeRef>,
    k: int,
    n: int,
    pi: int,
    asg: Seq<Option<Buffer<PT>>>,
) -> bool {
    &&& asg.len() == g.port_count()
    &&& forall|p: int|
        0 <= p < g.port_count() ==> ((#[trigger] asg[p]) is Some <==> (g.port_live(p) && ((exists|
            k2: int,
        |
            0 <= k2 < k && (#[trigger] ord[k2]).0 == g.port_owner(p)) || (g.port_owner(p) == n
            && exists|t: int|
            0 <= t < pi && (#[trigger] g.node_ports(n)[t]).0 == p)) && g.adj(
            g.port_owner(p),
        ).filter(out_of_port::<PT>(PortRef(p as usize))).len() > 0))
    &&& forall|p: int|
        0 <= p < g.port_count() && (#[trigger] asg[p]) is Some ==> asg[p].unwrap().type_.type_index()
            == g.port_ty(p).type_index()
}

impl<N: Clone, P: Clone, PT: PortType> Graph<N, P, PT> {
    /// Compile the graph into a schedule: one entry per live node, in a
    /// topological order, with reference-counted buffer assignments and
    /// per-edge delay compensation.
    ///
    /// The graph itself is read, never changed: two calls with no mutation
    /// in between work from the same state.
    #[verifier::rlimit(100)]
    pub fn compile(&self) -> (r: Vec<Scheduled<N, P, PT>>)
        requires
            self.wf(),
        ensures
            exists|ord: Seq<NodeRef>, lat: Seq<u64>, asg: Seq<Option<Buffer<PT>>>|
                #[trigger] schedule_ok(*self, ord, lat, asg, r@),
    {
        let ord = self.topo_order();
        let lat = self.solve_latencies(&ord);
        let n_ports = self.port_data.len();
        let mut asg: Vec<Option<Buffer<PT>>> = vec_none(n_ports);
        let mut counts: Vec<usize> = vec_zero_usize(n_ports);
        let mut alloc: BufferAllocator<PT> = BufferAllocator::default();
        let mut out: Vec<Scheduled<N, P, PT>> = Vec::new();
        proof {
            crate::seq_lemmas::lemma_filter_none(asg@, is_assigned::<PT>());
        }
        let mut k: usize = 0;
        while k < ord.len()
            invariant
                n_ports as int == self.port_count(),
                asg@.len() == n_ports,
                counts@.len() == n_ports,
                alloc.wf(),
                0 <= k <= ord@.len(),
                out@.len() == k,
                asg_progress(*self, ord@, k as int, asg@),
                forall|t: int|
                    0 <= t < PT::type_count() ==> (#[trigger] alloc.pool(t)).0 <= asg@.filter(
                        is_assigned::<PT>(),
                    ).len(),
                forall|k2: int|
                    0 <= k2 < k ==> entry_ok(*self, lat@, asg@, (#[trigger] ord@[k2]).0 as int, out@[k2]),
            decreases ord@.len() - k,
        {
            let nref = ord[k];
            let n = nref.0;
            proof {
                assert(self.node_live(n as int));
                assert(self.ports.len() as int == self.node_count());
            }
            let mut outs: Vec<(P, Buffer<PT>)> = Vec::new();
            let mut ins: Vec<(P, Vec<(Buffer<PT>, u64)>)> = Vec::new();
            let plen = self.ports[n].len();
            let mut pi: usize = 0;
            proof {
                assert(self.node_ports(n as int).subrange(0, 0) =~= Seq::<PortRef>::empty());
                assert(Seq::<PortRef>::empty().filter(port_has_outgoing(*self, n as int)) =~= Seq::<
                    PortRef,
                >::empty()) by {
                    reveal(Seq::filter);
                }
                assert(Seq::<PortRef>::empty().filter(port_has_incoming(*self, n as int)) =~= Seq::<
                    PortRef,
                >::empty()) by {
                    reveal(Seq::filter);
                }
                assert(asg_mid(*self, ord@, k as int, n as int, 0, asg@)) by {
                    assert forall|p: int|
                        0 <= p < self.port_count() implies ((#[trigger] asg@[p]) is Some <==> (
                        self.port_live(p) && ((exists|k2: int|
                            0 <= k2 < k && (#[trigger] ord@[k2]).0 == self.port_owner(p)) || (
                        self.port_owner(p) == n as int && exists|t: int|
                            0 <= t < 0 && (#[trigger] self.node_ports(n as int)[t]).0 == p))
                            && self.adj(self.port_owner(p)).filter(
                            out_of_port::<PT>(PortRef(p as usize)),
                        ).len() > 0)) by {
                    }
                }
            }
            while pi < plen
                invariant
                    n_ports as int == self.port_count(),
                    asg@.len() == n_ports,
                    counts@.len() == n_ports,
                    alloc.wf(),
                    0 <= k < ord@.len(),
                    nref == ord@[k as int],
                    n == nref.0,
                    (n as int) < self.node_count(),
                    plen as int == self.node_ports(n as int).len(),
                    0 <= pi <= plen,
                    out@.len() == k,
                    asg_mid(*self, ord@, k as int, n as int, pi as int, asg@),
                    forall|t: int|
                        0 <= t < PT::type_count() ==> (#[trigger] alloc.pool(t)).0 <= asg@.filter(
                            is_assigned::<PT>(),
                        ).len(),
                    forall|k2: int|
                        0 <= k2 < k ==> entry_ok(
                            *self,
                            lat@,
                            asg@,
                            (#[trigger] ord@[k2]).0 as int,
                            out@[k2],
                        ),
                    outputs_entries_ok(
                        *self,
                        asg@,
                        self.node_ports(n as int).subrange(0, pi as int).filter(
                            port_has_outgoing(*self, n as int),
                        ),
                        outs@,
                    ),
                    inputs_entries_ok(
                        *self,
                        lat@,
                        asg@,
                        n as int,
                        self.node_ports(n as int).subrange(0, pi as int).filter(
                            port_has_incoming(*self, n as int),
                        ),
                        ins@,
                    ),
                decreases plen - pi,
            {
                let p = self.ports[n][pi];
                proof {
                    assert(self.node_ports(n as int)[pi as int] == p);
                    assert(self.port_live(p.0 as int) && self.port_owner(p.0 as int) == n as int);
                    assert(self.port_data.len() as int == self.port_count());
                    lemma_filter_take_step(
                        self.node_ports(n as int),
                        pi as int,
                        port_has_outgoing(*self, n as int),
                    );
                    lemma_filter_take_step(
                        self.node_ports(n as int),
                        pi as int,
                        port_has_incoming(*self, n as int),
                    );
                }
                let oc = count_outgoing(&self.edges[n], p);
                if oc > 0 {
                    proof {
                        assert(port_has_outgoing(*self, n as int)(p));
                        // this port cannot be assigned yet
                        assert(asg@[p.0 as int] is None) by {
                            if asg@[p.0 as int] is Some {
                                if exists|k2: int|
                                    0 <= k2 < k && (#[trigger] ord@[k2]).0 == self.port_owner(
                                        p.0 as int,
                                    ) {
                                    let k2 = choose|k2: int|
                                        0 <= k2 < k && (#[trigger] ord@[k2]).0 == self.port_owner(
                                            p.0 as int,
                                        );
                                    assert(ord@[k2] != ord@[k as int]);
                                } else {
                                    let t = choose|t: int|
                                        0 <= t < pi && (#[trigger] self.node_ports(n as int)[t]).0
                                            == p.0;
                                    assert(self.node_ports(n as int).no_duplicates());
                                    assert(self.node_ports(n as int)[t]
                                        == self.node_ports(n as int)[pi as int]);
                                }
                            }
                        }
                        // room for a fresh index: at least this slot is empty
                        crate::seq_lemmas::lemma_split_at(asg@, p.0 as int);
                        Seq::filter_distributes_over_add(
                            asg@.subrange(0, p.0 as int) + seq![asg@[p.0 as int]],
                            asg@.subrange(p.0 as int + 1, asg@.len() as int),
                            is_assigned::<PT>(),
                        );
                        Seq::filter_distributes_over_add(
                            asg@.subrange(0, p.0 as int),
                            seq![asg@[p.0 as int]],
                            is_assigned::<PT>(),
                        );
                        crate::seq_lemmas::lemma_filter_singleton(
                            asg@[p.0 as int],
                            is_assigned::<PT>(),
                        );
                        asg@.subrange(0, p.0 as int).lemma_filter_len(is_assigned::<PT>());
                        asg@.subrange(p.0 as int + 1, asg@.len() as int).lemma_filter_len(
                            is_assigned::<PT>(),
                        );
                        assert(asg@.filter(is_assigned::<PT>()).len() < n_ports);
                    }
                    let ty = self.port_data[p.0].1;
                    proof {
                        ty.index_below_count();
                    }
                    let buf = alloc.acquire(ty);
                    let ghost asg0 = asg@;
                    asg.set(p.0, Some(buf));
                    counts.set(p.0, oc);
                    let ident = self.port_identifiers[p.0].clone();
                    let ghost outs0 = outs@;
                    outs.push((ident, buf));
                    proof {
                        crate::seq_lemmas::lemma_filter_update_len(
                            asg0,
                            p.0 as int,
                            Some(buf),
                            is_assigned::<PT>(),
                        );
                        assert(forall|q: int|
                            0 <= q < asg0.len() && (#[trigger] asg0[q]) is Some ==> asg@[q]
                                == asg0[q]);
                        // carry the finished entries and this node's partial
                        // lists across the newly filled slot
                        assert forall|k2: int|
                            0 <= k2 < k implies entry_ok(
                            *self,
                            lat@,
                            asg@,
                            (#[trigger] ord@[k2]).0 as int,
                            out@[k2],
                        ) by {
                            let n2 = ord@[k2].0 as int;
                            assert(self.node_live(n2));
                            lemma_entry_ok_monotone(*self, lat@, asg0, asg@, n2, out@[k2]);
                        }
                        let base = self.node_ports(n as int).subrange(0, pi as int);
                        assert(forall|i: int|
                            0 <= i < base.len() ==> self.node_ports(n as int).contains(
                                #[trigger] base[i],
                            )) by {
                            assert forall|i: int|
                                0 <= i < base.len() implies self.node_ports(n as int).contains(
                                #[trigger] base[i],
                            ) by {
                                assert(base[i] == self.node_ports(n as int)[i]);
                            }
                        }
                        lemma_port_filter_bounds(
                            *self,
                            n as int,
                            base,
                            port_has_outgoing(*self, n as int),
                        );
                        lemma_port_filter_bounds(
                            *self,
                            n as int,
                            base,
                            port_has_incoming(*self, n as int),
                        );
                        let ips_mid = base.filter(port_has_incoming(*self, n as int));
                        assert forall|i: int, t: int|
                            0 <= i < ips_mid.len() && 0 <= t < self.adj(n as int).filter(
                                in_of_port::<PT>(#[trigger] ips_mid[i]),
                            ).len() implies 0 <= (#[trigger] self.adj(n as int).filter(
                            in_of_port::<PT>(ips_mid[i]),
                        )[t]).src_port.0 < asg0.len() by {
                            lemma_edge_filter_src_bounds(
                                *self,
                                n as int,
                                in_of_port::<PT>(ips_mid[i]),
                            );
                        }
                        lemma_entry_parts_monotone(
                            *self,
                            lat@,
                            asg0,
                            asg@,
                            n as int,
                            base.filter(port_has_outgoing(*self, n as int)),
                            outs0,
                            ips_mid,
                            ins@,
                        );
                        // the new output tuple matches the new assignment
                        let ops = self.node_ports(n as int).subrange(0, pi as int + 1).filter(
                            port_has_outgoing(*self, n as int),
                        );
                        let ops0 = self.node_ports(n as int).subrange(0, pi as int).filter(
                            port_has_outgoing(*self, n as int),
                        );
                        assert(ops == ops0.push(p));
                        assert(asg@[p.0 as int] == Some(buf));
                        assert forall|i: int|
                            0 <= i < ops.len() implies {
                            let q = (#[trigger] ops[i]).0 as int;
                            &&& asg@[q] is Some
                            &&& outs@[i].1 == asg@[q].unwrap()
                            &&& cloned::<P>(self.port_identifiers@[q], outs@[i].0)
                        } by {
                            if i < ops.len() - 1 {
                                assert(ops[i] == ops0[i] && outs@[i] == outs0[i]);
                            } else {
                                assert(ops[i] == p);
                                assert(outs@[i] == (ident, buf));
                                assert(cloned::<P>(
                                    self.port_identifiers@[p.0 as int],
                                    ident,
                                ));
                            }
                        }
                        assert(outputs_entries_ok(*self, asg@, ops, outs@));
                        // the mid-node assignment invariant takes the new port in
                        assert(asg_mid(*self, ord@, k as int, n as int, pi as int + 1, asg@)) by {
                            assert forall|q: int|
                                0 <= q < self.port_count() implies ((#[trigger] asg@[q]) is Some
                                <==> (self.port_live(q) && ((exists|k2: int|
                                0 <= k2 < k && (#[trigger] ord@[k2]).0 == self.port_owner(q)) || (
                            self.port_owner(q) == n as int && exists|t: int|
                                0 <= t < pi + 1 && (#[trigger] self.node_ports(n as int)[t]).0
                                    == q)) && self.adj(self.port_owner(q)).filter(
                                out_of_port::<PT>(PortRef(q as usize)),
                            ).len() > 0)) by {
                                if q == p.0 as int {
                                    assert(self.node_ports(n as int)[pi as int].0 == q);
                                    assert(PortRef(q as usize) == p);
                                } else {
                                    assert(asg@[q] == asg0[q]);
                                    if asg0[q] is Some {
                                    } else {
                                        if self.port_live(q) && self.port_owner(q) == n as int
                                            && (exists|t: int|
                                            0 <= t < pi + 1 && (#[trigger] self.node_ports(
                                                n as int,
                                            )[t]).0 == q) {
                                            let t = choose|t: int|
                                                0 <= t < pi + 1 && (#[trigger] self.node_ports(
                                                    n as int,
                                                )[t]).0 == q;
                                            assert(t < pi);
                                        }
                                    }
                                }
                            }
                        }
                    }
                } else {
                    proof {
                        assert(!(port_has_outgoing(*self, n as int)(p)));
                        assert(self.node_ports(n as int).subrange(0, pi as int + 1).filter(
                            port_has_outgoing(*self, n as int),
                        ) == self.node_ports(n as int).subrange(0, pi as int).filter(
                            port_has_outgoing(*self, n as int),
                        ));
                        assert(asg_mid(*self, ord@, k as int, n as int, pi as int + 1, asg@)) by {
                            assert forall|q: int|
                                0 <= q < self.port_count() implies ((#[trigger] asg@[q]) is Some
                                <==> (self.port_live(q) && ((exists|k2: int|
                                0 <= k2 < k && (#[trigger] ord@[k2]).0 == self.port_owner(q)) || (
                            self.port_owner(q) == n as int && exists|t: int|
                                0 <= t < pi + 1 && (#[trigger] self.node_ports(n as int)[t]).0
                                    == q)) && self.adj(self.port_owner(q)).filter(
                                out_of_port::<PT>(PortRef(q as usize)),
                            ).len() > 0)) by {
                                if asg@[q] is Some {
                                } else {
                                    if self.port_live(q) && self.port_owner(q) == n as int && (
                                    exists|t: int|
                                        0 <= t < pi + 1 && (#[trigger] self.node_ports(
                                            n as int,
                                        )[t]).0 == q) {
                                        let t = choose|t: int|
                                            0 <= t < pi + 1 && (#[trigger] self.node_ports(
                                                n as int,
                                            )[t]).0 == q;
                                        if t == pi {
                                            assert(self.node_ports(n as int)[t] == p);
                                            assert(PortRef(q as usize) == p);
                                            assert(self.adj(n as int).filter(
                                                out_of_port::<PT>(p),
                                            ).len() == 0);
                                        }
                                    }
                                }
                            }
                        }
                    }
                }
                // gather this port's inputs: one tuple per incoming edge
                let list_len = self.edges[n].len();
                let mut bufs: Vec<(Buffer<PT>, u64)> = Vec::new();
                let mut ei: usize = 0;
                proof {
                    assert(self.adj(n as int).subrange(0, 0) =~= Seq::<Edge<PT>>::empty());
                    assert(Seq::<Edge<PT>>::empty().filter(in_of_port::<PT>(p)) =~= Seq::<
                        Edge<PT>,
                    >::empty()) by {
                        reveal(Seq::filter);
                    }
                }
                while ei < list_len
                    invariant
                        n_ports as int == self.port_count(),
                        asg@.len() == n_ports,
                        counts@.len() == n_ports,
                        alloc.wf(),
                        0 <= k < ord@.len(),
                        nref == ord@[k as int],
                        n == nref.0,
                        (n as int) < self.node_count(),
                        pi < plen,
                        plen as int == self.node_ports(n as int).len(),
                        p == self.node_ports(n as int)[pi as int],
                        list_len as int == self.adj(n as int).len(),
                        0 <= ei <= list_len,
                        forall|t: int|
                            0 <= t < PT::type_count() ==> (#[trigger] alloc.pool(t)).0
                                <= asg@.filter(is_assigned::<PT>()).len(),
                        input_edges_ok(
                            *self,
                            lat@,
                            asg@,
                            n as int,
                            self.adj(n as int).subrange(0, ei as int).filter(in_of_port::<PT>(p)),
                            bufs@,
                        ),
                    decreases list_len - ei,
                {
                    let ghost es0 = self.adj(n as int).subrange(0, ei as int).filter(
                        in_of_port::<PT>(p),
                    );
                    let e = self.edges[n][ei];
                    proof {
                        lemma_filter_take_step(self.adj(n as int), ei as int, in_of_port::<PT>(p));
                    }
                    if e.dst_port == p {
                        proof {
                            assert(in_of_port::<PT>(p)(self.adj(n as int)[ei as int]));
                            assert(self.edge_wf(self.adj(n as int)[ei as int]));
                            // the destination of this edge is the node itself
                            assert(e.dst_node == nref) by {
                                assert(e.dst_node == self.port_data@[e.dst_port.0 as int].0);
                                assert(self.port_owner(p.0 as int) == n as int);
                            }
                            // its producer was compiled earlier, so its port
                            // carries an assignment
                            assert((#[trigger] self.adj(ord@[k as int].0 as int)[ei as int]).dst_node
                                == ord@[k as int]);
                            let k2 = choose|k2: int|
                                0 <= k2 < k && ord@[k2] == self.adj(
                                    ord@[k as int].0 as int,
                                )[ei as int].src_node;
                            let q = e.src_port.0 as int;
                            assert(self.port_live(q));
                            assert(self.port_owner(q) == e.src_node.0 as int);
                            assert(self.adj(e.src_node.0 as int).contains(e));
                            let j2 = choose|j2: int|
                                0 <= j2 < self.adj(e.src_node.0 as int).len() && self.adj(
                                    e.src_node.0 as int,
                                )[j2] == e;
                            assert(out_of_port::<PT>(PortRef(q as usize))(
                                self.adj(e.src_node.0 as int)[j2],
                            )) by {
                                assert(PortRef(q as usize) == e.src_port);
                            }
                            lemma_filter_match_nonempty(
                                self.adj(e.src_node.0 as int),
                                out_of_port::<PT>(PortRef(q as usize)),
                                j2,
                            );
                            assert((exists|k3: int|
                                0 <= k3 < k && (#[trigger] ord@[k3]).0 == self.port_owner(q)));
                            assert(asg@[q] is Some);
                            // the edge's latency never exceeds the node's
                            assert(lat_ok_at(*self, lat@, n as int));
                            let deps = self.adj(n as int).filter(dep_of::<PT>(n as int));
                            assert(dep_of::<PT>(n as int)(self.adj(n as int)[ei as int]));
                            self.adj(n as int).lemma_filter_contains(
                                dep_of::<PT>(n as int),
                                ei as int,
                            );
                            let t2 = choose|t2: int| 0 <= t2 < deps.len() && deps[t2] == e;
                            assert(edge_lat(*self, lat@, deps[t2]) <= lat@[n as int]);
                            assert(self.node_live(e.src_node.0 as int));
                        }
                        let q = e.src_port;
                        let b = match asg[q.0] {
                            Some(b) => b,
                            None => {
                                proof {
                                    assert(false);
                                }
                                Buffer { index: 0, type_: self.port_data[q.0].1 }
                            },
                        };
                        let src = e.src_node.0;
                        let le = sat_add_exec(lat[src], self.delays[src]);
                        let comp = lat[n] - le;
                        let ghost bufs0 = bufs@;
                        bufs.push((b, comp));
                        let cnt = counts[q.0];
                        if cnt > 0 {
                            counts.set(q.0, cnt - 1);
                            if cnt == 1 {
                                alloc.release(b);
                            }
                        }
                        proof {
                            let es = self.adj(n as int).subrange(0, ei + 1).filter(
                                in_of_port::<PT>(p),
                            );
                            assert(es == es0.push(self.adj(n as int)[ei as int]));
                            assert forall|t: int|
                                0 <= t < es.len() implies {
                                let q2 = (#[trigger] es[t]).src_port.0 as int;
                                &&& asg@[q2] is Some
                                &&& bufs@[t].0 == asg@[q2].unwrap()
                                &&& bufs@[t].1 as int == lat@[n as int] as int - edge_lat(
                                    *self,
                                    lat@,
                                    es[t],
                                ) as int
                            } by {
                                if t < es.len() - 1 {
                                    assert(es[t] == es0[t] && bufs@[t] == bufs0[t]);
                                } else {
                                    assert(es[t] == e);
                                    assert(bufs@[t] == (b, comp));
                                }
                            }
                        }
                    } else {
                        proof {
                            assert(!(in_of_port::<PT>(p)(self.adj(n as int)[ei as int])));
                        }
                    }
                    ei = ei + 1;
                }
                proof {
                    lemma_filter_take_all(self.adj(n as int), in_of_port::<PT>(p));
                }
                if bufs.len() > 0 {
                    let ident = self.port_identifiers[p.0].clone();
                    let ghost ins0 = ins@;
                    ins.push((ident, bufs));
                    proof {
                        assert(port_has_incoming(*self, n as int)(p));
                        let ips = self.node_ports(n as int).subrange(0, pi as int + 1).filter(
                            port_has_incoming(*self, n as int),
                        );
                        let ips0 = self.node_ports(n as int).subrange(0, pi as int).filter(
                            port_has_incoming(*self, n as int),
                        );
                        assert(ips == ips0.push(p));
                        assert forall|i: int|
                            0 <= i < ips.len() implies {
                            &&& cloned::<P>(
                                self.port_identifiers@[(#[trigger] ips[i]).0 as int],
                                ins@[i].0,
                            )
                            &&& input_edges_ok(
                                *self,
                                lat@,
                                asg@,
                                n as int,
                                self.adj(n as int).filter(in_of_port::<PT>(ips[i])),
                                ins@[i].1@,
                            )
                        } by {
                            if i < ips.len() - 1 {
                                assert(ips[i] == ips0[i] && ins@[i] == ins0[i]);
                            } else {
                                assert(ips[i] == p);
                                assert(ins@[i].0 == ident && ins@[i].1 == bufs);
                            }
                        }
                    }
                } else {
                    proof {
                        assert(self.adj(n as int).filter(in_of_port::<PT>(p)).len() == 0);
                        assert(!(port_has_incoming(*self, n as int)(p)));
                        assert(self.node_ports(n as int).subrange(0, pi as int + 1).filter(
                            port_has_incoming(*self, n as int),
                        ) == self.node_ports(n as int).subrange(0, pi as int).filter(
                            port_has_incoming(*self, n as int),
                        ));
                    }
                }
                pi = pi + 1;
            }
            proof {
                lemma_filter_take_all(
                    self.node_ports(n as int),
                    port_has_outgoing(*self, n as int),
                );
                lemma_filter_take_all(
                    self.node_ports(n as int),
                    port_has_incoming(*self, n as int),
                );
            }
            let ident = self.node_identifiers[n].clone();
            let ghost out0 = out@;
            out.push(Scheduled { node: ident, inputs: ins, outputs: outs });
            proof {
                assert(cloned::<N>(self.node_identifiers@[n as int], ident));
                assert(entry_ok(*self, lat@, asg@, n as int, out@[k as int]));
                assert forall|k2: int|
                    0 <= k2 < k + 1 implies entry_ok(
                    *self,
                    lat@,
                    asg@,
                    (#[trigger] ord@[k2]).0 as int,
                    out@[k2],
                ) by {
                    if k2 < k {
                        assert(out@[k2] == out0[k2]);
                    }
                }
                // the whole node is compiled: fold its ports into the prefix
                assert(asg_progress(*self, ord@, k as int + 1, asg@)) by {
                    assert forall|q: int|
                        0 <= q < self.port_count() implies ((#[trigger] asg@[q]) is Some <==> (
                    self.port_live(q) && (exists|k2: int|
                        0 <= k2 < k + 1 && (#[trigger] ord@[k2]).0 == self.port_owner(q))
                        && self.adj(self.port_owner(q)).filter(
                        out_of_port::<PT>(PortRef(q as usize)),
                    ).len() > 0)) by {
                        if asg@[q] is Some {
                            if !(exists|k2: int|
                                0 <= k2 < k && (#[trigger] ord@[k2]).0 == self.port_owner(q)) {
                                assert(self.port_owner(q) == n as int);
                                assert(ord@[k as int].0 == self.port_owner(q));
                            }
                        } else {
                            if self.port_live(q) && (exists|k2: int|
                                0 <= k2 < k + 1 && (#[trigger] ord@[k2]).0 == self.port_owner(q))
                                && self.adj(self.port_owner(q)).filter(
                                out_of_port::<PT>(PortRef(q as usize)),
                            ).len() > 0 {
                                let k2 = choose|k2: int|
                                    0 <= k2 < k + 1 && (#[trigger] ord@[k2]).0 == self.port_owner(
                                        q,
                                    );
                                if k2 == k {
                                    assert(self.port_owner(q) == n as int);
                                    assert(self.node_ports(n as int).contains(PortRef(q as usize)));
                                    let t = choose|t: int|
                                        0 <= t < self.node_ports(n as int).len()
                                            && self.node_ports(n as int)[t] == PortRef(q as usize);
                                    assert((#[trigger] self.node_ports(n as int)[t]).0 == q);
                                }
                            }
                        }
                    }
                }
            }
            k = k + 1;
        }
        proof {
            assert(asg_progress(*self, ord@, ord@.len() as int, asg@));
            assert(schedule_ok(*self, ord@, lat@, asg@, out@));
        }
        out
    }
}

} // verus!
