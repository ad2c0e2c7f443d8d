//! The finished control-flow graph, and its simplification.
use crate::builder::{all_reachable, all_settled, has_successor, settled};
use crate::graph::{
    block_at, edges_at, edges_without, graph_edges, graph_nodes, has_edge, is_path, lemma_reach_refl, lemma_reach_step,
    lemma_reach_trans, model_wf, node_indices, reachable,
    add_edge, remove_node, touches, Edge, EdgeMap, GraphType, NodeMap,
};
use vstd::prelude::*;
use vstd::set_lib::{lemma_len_subset, lemma_set_disjoint_lens};

verus! {

/// A directed multigraph of blocks with a designated entry node, and an exit
/// node when control can fall off the end of the body.
pub struct ControlFlowGraph {
    pub entry_node: usize,
    pub exit_node: Option<usize>,
    pub graph: GraphType,
}

impl ControlFlowGraph {
    pub open spec fn nodes(&self) -> NodeMap {
        graph_nodes(self.graph)
    }

    pub open spec fn edges(&self) -> EdgeMap {
        graph_edges(self.graph)
    }

    pub open spec fn wf(&self) -> bool {
        &&& model_wf(self.nodes(), self.edges())
        &&& self.edges().len() <= u32::MAX
    }
}

/// Some edge enters node `k`.
pub open spec fn has_predecessor(edges: EdgeMap, k: usize) -> bool {
    exists|e: usize| #[trigger] edges.contains_key(e) && edges[e].1 == k
}

/// No edge touches node `k`.
pub open spec fn isolated(edges: EdgeMap, k: usize) -> bool {
    !has_successor(edges, k) && !has_predecessor(edges, k)
}

/// Edge `e` is the one edge that leaves node `k`.
pub open spec fn sole_exit(edges: EdgeMap, k: usize, e: usize) -> bool {
    &&& edges.contains_key(e)
    &&& edges[e].0 == k
    &&& forall|f: usize| #[trigger] edges.contains_key(f) && edges[f].0 == k ==> f == e
}

/// Node `k` is an empty pass-through: no statements, entered at least once,
/// left by exactly one edge.
pub open spec fn collapsible(nodes: NodeMap, edges: EdgeMap, k: usize) -> bool {
    &&& nodes[k].statements@.len() == 0
    &&& has_predecessor(edges, k)
    &&& exists|e: usize| sole_exit(edges, k, e)
}

/// `p` is a walk of `e0` from `a` to `b` of at least one step, whose first
/// edge has kind `kind` and whose inner nodes are all outside `nodes`.
pub open spec fn bypass(e0: EdgeMap, nodes: NodeMap, p: Seq<usize>, a: usize, b: usize, kind: Edge) -> bool {
    &&& is_path(e0, p)
    &&& p.len() >= 2
    &&& p[0] == a
    &&& p.last() == b
    &&& exists|e: usize| #[trigger] e0.contains_key(e) && e0[e] == (a, p[1], kind)
    &&& forall|i: int| 0 < i < p.len() - 1 ==> !nodes.contains_key(#[trigger] p[i])
}

/// The nodes of `n0` that some edge touches.
pub open spec fn pruned(n0: NodeMap, e0: EdgeMap) -> NodeMap {
    n0.restrict(n0.dom().filter(|k: usize| !isolated(e0, k)))
}

/// `x` is the pass-through node of least index.
pub open spec fn first_collapsible(n: NodeMap, e: EdgeMap, x: usize) -> bool {
    &&& n.contains_key(x)
    &&& collapsible(n, e, x)
    &&& forall|k: usize| #[trigger] n.contains_key(k) && k < x ==> !collapsible(n, e, k)
}

/// Graph `i + 1` comes from graph `i` by collapsing `xs[i]`, the
/// pass-through node of least index there.
pub open spec fn collapse_chain(ns: Seq<NodeMap>, es: Seq<EdgeMap>, xs: Seq<usize>) -> bool {
    &&& ns.len() == xs.len() + 1
    &&& es.len() == ns.len()
    &&& forall|i: int| 0 <= i < xs.len() ==> first_collapsible(#[trigger] ns[i], es[i], xs[i])
        && collapse_step(ns[i], es[i], ns[i + 1], es[i + 1], xs[i])
}

/// What simplification guarantees, from `(n0, e0)` to `(n1, e1)`:
/// - the nodes left are nodes of before, with the same blocks;
/// - no node holding statements is removed, unless no edge touched it;
/// - no node that was isolated is left, and no pass-through is left;
/// - a node that nothing entered, or that nothing left, stays unless isolated
///   (so the entry and exit nodes of a built graph stay);
/// - an edge whose two ends stay, stays;
/// - one node reaches another after exactly when it did before, for nodes
///   that stay;
/// - every edge left stands for a walk of before from its source to its target
///   through removed nodes only, and carries the kind of that walk's first edge;
/// - a graph with nothing to prune or collapse is left as it was;
/// - the result is the graph without its isolated nodes, then collapsed one
///   pass-through node at a time, least index first, until none is left.
pub open spec fn tidied(n0: NodeMap, e0: EdgeMap, n1: NodeMap, e1: EdgeMap) -> bool {
    &&& model_wf(n1, e1)
    &&& forall|k: usize| #[trigger] n1.contains_key(k) ==> n0.contains_key(k) && n1[k] == n0[k]
    &&& forall|k: usize| #[trigger] n0.contains_key(k) && n0[k].statements@.len() > 0 && !isolated(e0, k)
        ==> n1.contains_key(k)
    &&& forall|k: usize| #[trigger] n0.contains_key(k) && isolated(e0, k) ==> !n1.contains_key(k)
    &&& forall|k: usize| #[trigger] n0.contains_key(k) && !isolated(e0, k)
        && (!has_predecessor(e0, k) || !has_successor(e0, k)) ==> n1.contains_key(k)
    &&& forall|f: usize| #[trigger] e0.contains_key(f) && n1.contains_key(e0[f].0) && n1.contains_key(e0[f].1)
        ==> e1.contains_key(f) && e1[f] == e0[f]
    &&& forall|a: usize, b: usize| #[trigger] reachable(e0, a, b) && n1.contains_key(a) && n1.contains_key(b)
        ==> reachable(e1, a, b)
    &&& forall|a: usize, b: usize| #[trigger] reachable(e1, a, b) ==> reachable(e0, a, b)
    &&& forall|k: usize| #[trigger] n1.contains_key(k) ==> !collapsible(n1, e1, k)
    &&& forall|e: usize| #[trigger] e1.contains_key(e)
        ==> exists|p: Seq<usize>| bypass(e0, n1, p, e1[e].0, e1[e].1, e1[e].2)
    &&& (forall|k: usize| #[trigger] n0.contains_key(k) ==> !isolated(e0, k) && !collapsible(n0, e0, k))
        ==> n1 == n0 && e1 == e0
    &&& exists|ns: Seq<NodeMap>, es: Seq<EdgeMap>, xs: Seq<usize>| {
        &&& collapse_chain(ns, es, xs)
        &&& ns[0] == pruned(n0, e0)
        &&& es[0] == e0
        &&& ns.last() == n1
        &&& es.last() == e1
    }
}

/// One collapse: node `x` goes, edges that do not touch it stay, and each
/// edge that entered it from another node is redirected, with its own kind,
/// to the target of the one edge that left it (unless that edge was a loop on
/// `x`); nothing else is added.
/// Target of the one edge that leaves `x`.
pub open spec fn exit_target(e: EdgeMap, x: usize) -> usize {
    e[choose|fo: usize| sole_exit(e, x, fo)].1
}

/// Edge `f` of `e` touches neither end at `x`.
pub open spec fn clear_of(e: EdgeMap, x: usize, f: usize) -> bool {
    e.contains_key(f) && e[f].0 != x && e[f].1 != x
}

/// `m` takes each edge that enters `x` from another node (when `x` does not
/// loop on itself) to its own redirected edge of `e1`, one for one, and the
/// edges of `e1` are those clear of `x` and these.
pub open spec fn redirects(e: EdgeMap, x: usize, e1: EdgeMap, m: Map<usize, usize>) -> bool {
    &&& forall|fi: usize| #[trigger] m.contains_key(fi)
        <==> (e.contains_key(fi) && e[fi].1 == x && e[fi].0 != x && exit_target(e, x) != x)
    &&& forall|fi: usize| #[trigger] m.contains_key(fi) ==> {
        &&& e1.contains_key(m[fi])
        &&& e1[m[fi]] == (e[fi].0, exit_target(e, x), e[fi].2)
        &&& !clear_of(e, x, m[fi])
    }
    &&& forall|fi: usize, fj: usize| #[trigger] m.contains_key(fi) && #[trigger] m.contains_key(fj) && fi != fj
        ==> m[fi] != m[fj]
    &&& forall|f: usize| #[trigger] e1.contains_key(f)
        ==> clear_of(e, x, f) || exists|fi: usize| #[trigger] m.contains_key(fi) && m[fi] == f
}

pub open spec fn collapse_step(n: NodeMap, e: EdgeMap, n1: NodeMap, e1: EdgeMap, x: usize) -> bool {
    &&& n1 == n.remove(x)
    &&& e1.len() <= e.len()
    &&& forall|f: usize| #[trigger] e.contains_key(f) && e[f].0 != x && e[f].1 != x
        ==> e1.contains_key(f) && e1[f] == e[f]
    &&& exists|m: Map<usize, usize>| redirects(e, x, e1, m)
}

/// What a collapse of `x` gives edge by edge: each edge after is one clear of
/// `x`, or an edge into `x` sent on to where `x` led; each edge into `x` from
/// another node is sent on.
pub open spec fn step_links(e: EdgeMap, e1: EdgeMap, x: usize) -> bool {
    &&& forall|f: usize| #[trigger] e1.contains_key(f) ==> {
        ||| e.contains_key(f) && e1[f] == e[f] && e[f].0 != x && e[f].1 != x
        ||| exists|fi: usize, fo: usize| {
            &&& #[trigger] e.contains_key(fi)
            &&& e[fi] == (e1[f].0, x, e1[f].2)
            &&& #[trigger] sole_exit(e, x, fo)
            &&& e[fo].1 == e1[f].1
            &&& e1[f].0 != x
            &&& e1[f].1 != x
        }
    }
    &&& forall|fi: usize, fo: usize| #[trigger] e.contains_key(fi) && e[fi].1 == x && e[fi].0 != x
        && #[trigger] sole_exit(e, x, fo) && e[fo].1 != x
        ==> exists|f: usize| #[trigger] e1.contains_key(f) && e1[f] == (e[fi].0, e[fo].1, e[fi].2)
            && !(e.contains_key(f) && e[f].0 != x && e[f].1 != x)
}

proof fn lemma_step_links(n: NodeMap, e: EdgeMap, n1: NodeMap, e1: EdgeMap, x: usize)
    requires
        collapsible(n, e, x),
        collapse_step(n, e, n1, e1, x),
    ensures
        step_links(e, e1, x),
{
    let m = choose|m: Map<usize, usize>| redirects(e, x, e1, m);
    let fo = choose|fo: usize| sole_exit(e, x, fo);
    assert(exit_target(e, x) == e[fo].1);
    assert forall|f: usize| #[trigger] e1.contains_key(f) implies {
        ||| e.contains_key(f) && e1[f] == e[f] && e[f].0 != x && e[f].1 != x
        ||| exists|fi: usize, fo: usize| {
            &&& #[trigger] e.contains_key(fi)
            &&& e[fi] == (e1[f].0, x, e1[f].2)
            &&& #[trigger] sole_exit(e, x, fo)
            &&& e[fo].1 == e1[f].1
            &&& e1[f].0 != x
            &&& e1[f].1 != x
        }
    } by {
        if !clear_of(e, x, f) {
            let fi = choose|fi: usize| #[trigger] m.contains_key(fi) && m[fi] == f;
            assert(e.contains_key(fi) && e[fi] == (e1[f].0, x, e1[f].2));
            assert(sole_exit(e, x, fo));
        }
    }
    assert forall|fi: usize, fo2: usize| #[trigger] e.contains_key(fi) && e[fi].1 == x && e[fi].0 != x
        && #[trigger] sole_exit(e, x, fo2) && e[fo2].1 != x
        implies exists|f: usize| #[trigger] e1.contains_key(f) && e1[f] == (e[fi].0, e[fo2].1, e[fi].2)
            && !(e.contains_key(f) && e[f].0 != x && e[f].1 != x) by {
        assert(fo2 == fo);
        assert(m.contains_key(fi));
        assert(e1.contains_key(m[fi]));
    }
}

proof fn lemma_path_join(e0: EdgeMap, p: Seq<usize>, q: Seq<usize>)
    requires
        p.len() >= 1,
        q.len() >= 1,
        forall|i: int| 0 <= i < p.len() - 1 ==> #[trigger] has_edge_at(e0, p, i),
        forall|i: int| 0 <= i < q.len() - 1 ==> #[trigger] has_edge_at(e0, q, i),
        p.last() == q[0],
    ensures
        forall|i: int| 0 <= i < (p + q.drop_first()).len() - 1 ==> #[trigger] has_edge_at(e0, p + q.drop_first(), i),
        (p + q.drop_first())[0] == p[0],
        (p + q.drop_first()).last() == q.last(),
{
    let r = p + q.drop_first();
    assert forall|i: int| 0 <= i < r.len() - 1 implies #[trigger] has_edge_at(e0, r, i) by {
        if i < p.len() - 1 {
            assert(r[i] == p[i] && r[i + 1] == p[i + 1]);
            assert(has_edge_at(e0, p, i));
        } else {
            let j = i - p.len() + 1;
            assert(r[i] == q[j] && r[i + 1] == q[j + 1]);
            assert(has_edge_at(e0, q, j));
        }
    }
    if q.len() > 1 {
        assert(r.last() == q.last());
    }
}

/// No node to prune and none to collapse.
pub open spec fn settled_shape(n: NodeMap, e: EdgeMap) -> bool {
    forall|k: usize| #[trigger] n.contains_key(k) ==> !isolated(e, k) && !collapsible(n, e, k)
}

/// Every edge of `e` stands for a bypass walk of `e0` around the nodes gone
/// from `n`.
pub open spec fn edges_bypass(e0: EdgeMap, n: NodeMap, e: EdgeMap) -> bool {
    forall|f: usize| #[trigger] e.contains_key(f) ==> exists|p: Seq<usize>| bypass(e0, n, p, e[f].0, e[f].1, e[f].2)
}

proof fn lemma_collapse_bypass(e0: EdgeMap, n: NodeMap, e: EdgeMap, n1: NodeMap, e1: EdgeMap, x: usize)
    requires
        collapsible(n, e, x),
        collapse_step(n, e, n1, e1, x),
        edges_bypass(e0, n, e),
    ensures
        edges_bypass(e0, n1, e1),
{
    lemma_step_links(n, e, n1, e1, x);
    assert forall|f: usize| #[trigger] e1.contains_key(f) implies exists|p: Seq<usize>| bypass(e0, n1, p, e1[f].0, e1[f].1, e1[f].2) by {
        if e.contains_key(f) && e1[f] == e[f] && e[f].0 != x && e[f].1 != x {
            let p = choose|p: Seq<usize>| bypass(e0, n, p, e[f].0, e[f].1, e[f].2);
            assert(bypass(e0, n1, p, e1[f].0, e1[f].1, e1[f].2));
        } else {
            let (fi, fo) = choose|fi: usize, fo: usize| {
                &&& #[trigger] e.contains_key(fi)
                &&& e[fi] == (e1[f].0, x, e1[f].2)
                &&& #[trigger] sole_exit(e, x, fo)
                &&& e[fo].1 == e1[f].1
                &&& e1[f].0 != x
                &&& e1[f].1 != x
            };
            let p1 = choose|p: Seq<usize>| bypass(e0, n, p, e[fi].0, e[fi].1, e[fi].2);
            let p2 = choose|p: Seq<usize>| bypass(e0, n, p, e[fo].0, e[fo].1, e[fo].2);
            assert forall|i: int| 0 <= i < p1.len() - 1 implies has_edge_at(e0, p1, i) by {
                assert(crate::graph::has_edge(e0, p1[i], p1[i + 1]));
            }
            assert forall|i: int| 0 <= i < p2.len() - 1 implies has_edge_at(e0, p2, i) by {
                assert(crate::graph::has_edge(e0, p2[i], p2[i + 1]));
            }
            lemma_path_join(e0, p1, p2);
            let q = p1 + p2.drop_first();
            assert(q[1] == p1[1]);
            assert forall|i: int| 0 < i < q.len() - 1 implies !n1.contains_key(#[trigger] q[i]) by {
                if i < p1.len() - 1 {
                    assert(q[i] == p1[i]);
                } else if i == p1.len() - 1 {
                    assert(q[i] == x);
                } else {
                    assert(q[i] == p2[i - p1.len() + 1]);
                }
            }
            assert(bypass(e0, n1, q, e1[f].0, e1[f].1, e1[f].2));
        }
    }
}

/// Walk `p` steps along an edge of `e0` at position `i`.
pub open spec fn has_edge_at(e0: EdgeMap, p: Seq<usize>, i: int) -> bool {
    crate::graph::has_edge(e0, p[i], p[i + 1])
}

/// A walk that reaches `x`, whose one outgoing edge loops back on `x`, ends
/// at `x`.
proof fn lemma_stuck(e: EdgeMap, x: usize, fo: usize, p: Seq<usize>, i: int)
    requires
        is_path(e, p),
        0 <= i < p.len(),
        p[i] == x,
        sole_exit(e, x, fo),
        e[fo].1 == x,
    ensures
        p.last() == x,
    decreases p.len() - i,
{
    if i < p.len() - 1 {
        assert(has_edge(e, p[i], p[i + 1]));
        let g = choose|g: usize| #[trigger] e.contains_key(g) && e[g].0 == p[i] && e[g].1 == p[i + 1];
        assert(g == fo);
        lemma_stuck(e, x, fo, p, i + 1);
    }
}

/// A collapse keeps every walk between two nodes that stay.
proof fn lemma_collapse_path(n: NodeMap, e: EdgeMap, n1: NodeMap, e1: EdgeMap, x: usize, p: Seq<usize>)
    requires
        model_wf(n, e),
        collapsible(n, e, x),
        collapse_step(n, e, n1, e1, x),
        is_path(e, p),
        n1.contains_key(p[0]),
        n1.contains_key(p.last()),
    ensures
        reachable(e1, p[0], p.last()),
    decreases p.len(),
{
    lemma_step_links(n, e, n1, e1, x);
    if p.len() == 1 {
        lemma_reach_refl(e1, p[0]);
    } else {
        let a = p[0];
        assert(has_edge(e, p[0], p[1]));
        let g = choose|g: usize| #[trigger] e.contains_key(g) && e[g].0 == p[0] && e[g].1 == p[1];
        let q = p.drop_first();
        assert forall|i: int| 0 <= i < q.len() - 1 implies has_edge(e, #[trigger] q[i], q[i + 1]) by {
            assert(has_edge(e, p[i + 1], p[i + 2]));
        }
        assert(is_path(e, q));
        if p[1] != x {
            assert(e1.contains_key(g) && e1[g] == e[g]);
            assert(n.contains_key(p[1]));
            lemma_collapse_path(n, e, n1, e1, x, q);
            lemma_reach_refl(e1, a);
            lemma_reach_step(e1, a, a, p[1]);
            lemma_reach_trans(e1, a, p[1], p.last());
        } else {
            let fo = choose|fo: usize| sole_exit(e, x, fo);
            if e[fo].1 == x {
                lemma_stuck(e, x, fo, p, 1);
            }
            assert(p.len() >= 3);
            assert(has_edge(e, p[1], p[2]));
            let h = choose|h: usize| #[trigger] e.contains_key(h) && e[h].0 == p[1] && e[h].1 == p[2];
            assert(h == fo);
            let d = p[2];
            let f = choose|f: usize| #[trigger] e1.contains_key(f) && e1[f] == (e[g].0, e[fo].1, e[g].2)
                && !(e.contains_key(f) && e[f].0 != x && e[f].1 != x);
            let r = q.drop_first();
            assert forall|i: int| 0 <= i < r.len() - 1 implies has_edge(e, #[trigger] r[i], r[i + 1]) by {
                assert(has_edge(e, p[i + 2], p[i + 3]));
            }
            assert(is_path(e, r));
            assert(n.contains_key(d));
            lemma_collapse_path(n, e, n1, e1, x, r);
            lemma_reach_refl(e1, a);
            lemma_reach_step(e1, a, a, d);
            lemma_reach_trans(e1, a, d, p.last());
        }
    }
}

/// A walk of the simplified graph stands for a walk of the original one.
proof fn lemma_bypass_path(e0: EdgeMap, n: NodeMap, e: EdgeMap, p: Seq<usize>)
    requires
        edges_bypass(e0, n, e),
        is_path(e, p),
    ensures
        reachable(e0, p[0], p.last()),
    decreases p.len(),
{
    if p.len() == 1 {
        lemma_reach_refl(e0, p[0]);
    } else {
        let q = p.drop_first();
        assert forall|i: int| 0 <= i < q.len() - 1 implies has_edge(e, #[trigger] q[i], q[i + 1]) by {
            assert(has_edge(e, p[i + 1], p[i + 2]));
        }
        lemma_bypass_path(e0, n, e, q);
        assert(has_edge(e, p[0], p[1]));
        let g = choose|g: usize| #[trigger] e.contains_key(g) && e[g].0 == p[0] && e[g].1 == p[1];
        let w = choose|w: Seq<usize>| bypass(e0, n, w, e[g].0, e[g].1, e[g].2);
        assert(is_path(e0, w));
        assert(reachable(e0, p[0], p[1]));
        lemma_reach_trans(e0, p[0], p[1], p.last());
    }
}

/// What a collapse keeps of the original graph `(n0, e0)`: no node gains a
/// predecessor or a successor it never had, nodes without one stay, and edges
/// between staying nodes stay.
proof fn lemma_collapse_keeps(n0: NodeMap, e0: EdgeMap, n: NodeMap, e: EdgeMap, n1: NodeMap, e1: EdgeMap, x: usize)
    requires
        n.contains_key(x),
        collapsible(n, e, x),
        collapse_step(n, e, n1, e1, x),
        forall|k: usize| #[trigger] has_predecessor(e, k) ==> has_predecessor(e0, k),
        forall|k: usize| #[trigger] has_successor(e, k) ==> has_successor(e0, k),
        forall|k: usize| #[trigger] n0.contains_key(k) && !isolated(e0, k)
            && (!has_predecessor(e0, k) || !has_successor(e0, k)) ==> n.contains_key(k),
        forall|f: usize| #[trigger] e0.contains_key(f) && n.contains_key(e0[f].0)
            && n.contains_key(e0[f].1) ==> e.contains_key(f) && e[f] == e0[f],
    ensures
        forall|k: usize| #[trigger] has_predecessor(e1, k) ==> has_predecessor(e0, k),
        forall|k: usize| #[trigger] has_successor(e1, k) ==> has_successor(e0, k),
        forall|k: usize| #[trigger] n0.contains_key(k) && !isolated(e0, k)
            && (!has_predecessor(e0, k) || !has_successor(e0, k)) ==> n1.contains_key(k),
        forall|f: usize| #[trigger] e0.contains_key(f) && n1.contains_key(e0[f].0)
            && n1.contains_key(e0[f].1) ==> e1.contains_key(f) && e1[f] == e0[f],
{
    lemma_step_links(n, e, n1, e1, x);
    let ed = e1;
    assert forall|k: usize| #[trigger] has_predecessor(ed, k) implies has_predecessor(e0, k) by {
        let f = choose|f: usize| #[trigger] ed.contains_key(f) && ed[f].1 == k;
        if !(e.contains_key(f) && ed[f] == e[f] && e[f].0 != x && e[f].1 != x) {
            let (fi, fo) = choose|fi: usize, fo: usize| {
                &&& #[trigger] e.contains_key(fi)
                &&& e[fi] == (ed[f].0, x, ed[f].2)
                &&& #[trigger] sole_exit(e, x, fo)
                &&& e[fo].1 == ed[f].1
                &&& ed[f].0 != x
                &&& ed[f].1 != x
            };
            assert(has_predecessor(e, k));
        } else {
            assert(has_predecessor(e, k));
        }
    }
    assert forall|k: usize| #[trigger] has_successor(ed, k) implies has_successor(e0, k) by {
        let f = choose|f: usize| #[trigger] ed.contains_key(f) && ed[f].0 == k;
        if !(e.contains_key(f) && ed[f] == e[f] && e[f].0 != x && e[f].1 != x) {
            let (fi, fo) = choose|fi: usize, fo: usize| {
                &&& #[trigger] e.contains_key(fi)
                &&& e[fi] == (ed[f].0, x, ed[f].2)
                &&& #[trigger] sole_exit(e, x, fo)
                &&& e[fo].1 == ed[f].1
                &&& ed[f].0 != x
                &&& ed[f].1 != x
            };
            assert(has_successor(e, k));
        } else {
            assert(has_successor(e, k));
        }
    }
    assert(has_predecessor(e0, x));
    let fo = choose|fo: usize| sole_exit(e, x, fo);
    assert(has_successor(e, x));
    assert(has_successor(e0, x));
    assert forall|f: usize| #[trigger] e0.contains_key(f) && n1.contains_key(e0[f].0)
        && n1.contains_key(e0[f].1) implies e1.contains_key(f) && e1[f] == e0[f] by {
        assert(n.contains_key(e0[f].0) && n.contains_key(e0[f].1));
        assert(e0[f].0 != x && e0[f].1 != x);
        assert(e.contains_key(f) && e[f] == e0[f]);
        assert(e[f].0 != x && e[f].1 != x);
        assert(e1.contains_key(f) && e1[f] == e[f]);
    }
}

impl ControlFlowGraph {
    /// Removes the nodes that no edge touches.
    fn prune_isolated(&mut self)
        requires
            old(self).wf(),
        ensures
            final(self).wf(),
            final(self).entry_node == old(self).entry_node,
            final(self).exit_node == old(self).exit_node,
            final(self).edges() == old(self).edges(),
            forall|k: usize| #[trigger] final(self).nodes().contains_key(k)
                <==> old(self).nodes().contains_key(k) && !isolated(old(self).edges(), k),
            forall|k: usize| #[trigger] final(self).nodes().contains_key(k) ==> final(self).nodes()[k] == old(self).nodes()[k],
    {
        let ghost n0 = self.nodes();
        let ghost e0 = self.edges();
        let indices = node_indices(&self.graph);
        let mut i: usize = 0;
        while i < indices.len()
            invariant
                self.wf(),
                self.entry_node == old(self).entry_node,
                self.exit_node == old(self).exit_node,
                n0 == old(self).nodes(),
                e0 == old(self).edges(),
                self.edges() == e0,
                0 <= i <= indices@.len(),
                forall|a: int, b: int| 0 <= a < b < indices@.len() ==> indices@[a] < indices@[b],
                forall|k: usize| #[trigger] indices@.contains(k) <==> n0.contains_key(k),
                forall|k: usize| #[trigger] self.nodes().contains_key(k)
                    <==> n0.contains_key(k) && !(isolated(e0, k) && exists|j: int| 0 <= j < i && #[trigger] indices@[j] == k),
                forall|k: usize| #[trigger] self.nodes().contains_key(k) ==> self.nodes()[k] == n0[k],
            decreases indices@.len() - i,
        {
            let k = indices[i];
            proof {
                assert(indices@.contains(k));
                if exists|j: int| 0 <= j < i && #[trigger] indices@[j] == k {
                    let j = choose|j: int| 0 <= j < i && #[trigger] indices@[j] == k;
                    assert(indices@[j] < indices@[i as int]);
                }
                assert(self.nodes().contains_key(k));
            }
            let outgoing = edges_at(&self.graph, k, true);
            let incoming = edges_at(&self.graph, k, false);
            if outgoing.len() == 0 && incoming.len() == 0 {
                proof {
                    assert forall|e: usize| #[trigger] e0.contains_key(e) implies e0[e].0 != k && e0[e].1 != k by {
                        if e0[e].0 == k {
                            assert(touches(e0[e], k, true));
                        }
                        if e0[e].1 == k {
                            assert(touches(e0[e], k, false));
                        }
                    }
                    assert(edges_without(e0, k) =~= e0);
                }
                remove_node(&mut self.graph, k);
            } else {
                proof {
                    if outgoing.len() > 0 {
                        assert(touches(e0[outgoing@[0].0], k, true));
                    } else {
                        assert(touches(e0[incoming@[0].0], k, false));
                    }
                }
            }
            i = i + 1;
        }
        proof {
            assert forall|k: usize| #[trigger] n0.contains_key(k) implies exists|j: int| 0 <= j < i && #[trigger] indices@[j] == k by {
                assert(indices@.contains(k));
            }
        }
    }

    /// Removes node `x` and redirects each edge of `incoming` (the edges
    /// that enter `x`) to the target of `out` (the one edge that leaves it).
    #[verifier::rlimit(100)]
    fn bypass_node(&mut self, x: usize, incoming: &Vec<(usize, usize, usize, Edge)>, out: (usize, usize, usize, Edge))
        requires
            old(self).wf(),
            old(self).nodes().contains_key(x),
            sole_exit(old(self).edges(), x, out.0),
            old(self).edges()[out.0] == (out.1, out.2, out.3),
            forall|i: int, j: int| 0 <= i < j < incoming@.len() ==> incoming@[i].0 != incoming@[j].0,
            forall|i: int| 0 <= i < incoming@.len() ==> {
                &&& old(self).edges().contains_key(#[trigger] incoming@[i].0)
                &&& old(self).edges()[incoming@[i].0] == (incoming@[i].1, incoming@[i].2, incoming@[i].3)
                &&& incoming@[i].2 == x
            },
            forall|f: usize| #[trigger] old(self).edges().contains_key(f) && old(self).edges()[f].1 == x
                ==> exists|i: int| 0 <= i < incoming@.len() && incoming@[i].0 == f,
        ensures
            final(self).wf(),
            final(self).entry_node == old(self).entry_node,
            final(self).exit_node == old(self).exit_node,
            collapse_step(old(self).nodes(), old(self).edges(), final(self).nodes(), final(self).edges(), x),
    {
        let ghost n = self.nodes();
        let ghost e = self.edges();
        let dest = out.2;
        remove_node(&mut self.graph, x);
        let ghost e1 = self.edges();
        proof {
            let ids = incoming@.map_values(|t: (usize, usize, usize, Edge)| t.0);
            assert(ids.no_duplicates()) by {
                assert forall|i: int, j: int| 0 <= i < ids.len() && 0 <= j < ids.len() && i != j implies ids[i] != ids[j] by {
                    if i < j {
                        assert(incoming@[i].0 != incoming@[j].0);
                    } else {
                        assert(incoming@[j].0 != incoming@[i].0);
                    }
                }
            }
            ids.unique_seq_to_set();
            let s_ids = ids.to_set();
            assert forall|k: usize| s_ids.contains(k) implies e.dom().contains(k) && !e1.dom().contains(k) by {
                let i = choose|i: int| 0 <= i < ids.len() && ids[i] == k;
                assert(incoming@[i].0 == k);
            }
            lemma_len_subset(s_ids, e.dom());
            lemma_len_subset(e1.dom(), e.dom());
            if dest != x {
                let s_all = s_ids.insert(out.0);
                assert forall|k: usize| s_all.contains(k) implies e.dom().contains(k) && !e1.dom().contains(k) by {}
                assert(!s_ids.contains(out.0));
                assert(e1.dom().disjoint(s_all));
                lemma_set_disjoint_lens(e1.dom(), s_all);
                lemma_len_subset(e1.dom() + s_all, e.dom());
            }
            assert forall|f: usize| #[trigger] e1.contains_key(f) implies self.nodes().contains_key(e1[f].0)
                && self.nodes().contains_key(e1[f].1) by {
                assert(e.contains_key(f));
            }
        }
        let mut j: usize = 0;
        let ghost mut m: Map<usize, usize> = Map::empty();
        proof {
            assert(sole_exit(e, x, out.0));
            assert(exit_target(e, x) == dest);
        }
        while j < incoming.len()
            invariant
                exit_target(e, x) == dest,
                forall|a: int, b: int| 0 <= a < b < incoming@.len() ==> incoming@[a].0 != incoming@[b].0,
                forall|fi: usize| #[trigger] m.contains_key(fi) <==> (dest != x
                    && exists|jj: int| 0 <= jj < j && incoming@[jj].0 == fi && incoming@[jj].1 != x),
                forall|fi: usize| #[trigger] m.contains_key(fi) ==> {
                    &&& self.edges().contains_key(m[fi])
                    &&& !e1.contains_key(m[fi])
                    &&& self.edges()[m[fi]] == (e[fi].0, dest, e[fi].2)
                },
                forall|fi: usize, fj: usize| #[trigger] m.contains_key(fi) && #[trigger] m.contains_key(fj) && fi != fj
                    ==> m[fi] != m[fj],
                forall|f: usize| #[trigger] self.edges().contains_key(f)
                    ==> e1.contains_key(f) || exists|fi: usize| #[trigger] m.contains_key(fi) && m[fi] == f,
                self.wf(),
                self.entry_node == old(self).entry_node,
                self.exit_node == old(self).exit_node,
                n == old(self).nodes(),
                e == old(self).edges(),
                e1 == edges_without(e, x),
                self.nodes() == n.remove(x),
                dest == e[out.0].1,
                n.contains_key(dest),
                model_wf(n, e),
                e.len() <= u32::MAX,
                e1.len() <= e.len(),
                dest != x ==> e1.len() + incoming@.len() < e.len(),
                dest == x ==> self.edges() == e1,
                e1.submap_of(self.edges()),
                0 <= j <= incoming@.len(),
                self.edges().len() <= e1.len() + j,
                forall|i: int| 0 <= i < incoming@.len() ==> {
                    &&& e.contains_key(#[trigger] incoming@[i].0)
                    &&& e[incoming@[i].0] == (incoming@[i].1, incoming@[i].2, incoming@[i].3)
                    &&& incoming@[i].2 == x
                },
            decreases incoming@.len() - j,
        {
            let (_, source, _, kind) = incoming[j];
            if source != x && dest != x {
                proof {
                    assert(e.contains_key(incoming@[j as int].0));
                    assert(e[incoming@[j as int].0].0 == source);
                    assert(n.contains_key(source));
                }
                let ghost before = self.edges();
                let ghost m_before = m;
                let r = add_edge(&mut self.graph, source, dest, kind);
                proof {
                    let fi = incoming@[j as int].0;
                    assert(!m_before.contains_key(fi)) by {
                        if m_before.contains_key(fi) {
                            let jj = choose|jj: int| 0 <= jj < j && incoming@[jj].0 == fi && incoming@[jj].1 != x;
                            assert(incoming@[jj].0 != incoming@[j as int].0);
                        }
                    }
                    m = m_before.insert(fi, r);
                    assert forall|g: usize| #[trigger] m.contains_key(g) implies {
                        &&& self.edges().contains_key(m[g])
                        &&& !e1.contains_key(m[g])
                        &&& self.edges()[m[g]] == (e[g].0, dest, e[g].2)
                    } by {
                        if g != fi {
                            assert(before.contains_key(m_before[g]));
                        }
                    }
                    assert forall|g: usize| #[trigger] m.contains_key(g) <==> (dest != x
                        && exists|jj: int| 0 <= jj < j + 1 && incoming@[jj].0 == g && incoming@[jj].1 != x) by {
                        if g == fi {
                            assert(incoming@[j as int].0 == g);
                        } else if exists|jj: int| 0 <= jj < j + 1 && incoming@[jj].0 == g && incoming@[jj].1 != x {
                            let jj = choose|jj: int| 0 <= jj < j + 1 && incoming@[jj].0 == g && incoming@[jj].1 != x;
                            assert(jj != j);
                        }
                    }
                    assert forall|f: usize| #[trigger] self.edges().contains_key(f)
                        implies e1.contains_key(f) || exists|g: usize| #[trigger] m.contains_key(g) && m[g] == f by {
                        if f == r {
                            assert(m.contains_key(fi) && m[fi] == r);
                        } else {
                            assert(before.contains_key(f));
                            if !e1.contains_key(f) {
                                let g = choose|g: usize| #[trigger] m_before.contains_key(g) && m_before[g] == f;
                                assert(m.contains_key(g) && m[g] == f);
                            }
                        }
                    }
                    assert forall|g1: usize, g2: usize| #[trigger] m.contains_key(g1) && #[trigger] m.contains_key(g2) && g1 != g2
                        implies m[g1] != m[g2] by {
                        if g1 == fi {
                            assert(before.contains_key(m_before[g2]));
                        } else if g2 == fi {
                            assert(before.contains_key(m_before[g1]));
                        }
                    }
                }
            } else {
                proof {
                    assert forall|g: usize| #[trigger] m.contains_key(g) <==> (dest != x
                        && exists|jj: int| 0 <= jj < j + 1 && incoming@[jj].0 == g && incoming@[jj].1 != x) by {
                        if exists|jj: int| 0 <= jj < j + 1 && incoming@[jj].0 == g && incoming@[jj].1 != x {
                            let jj = choose|jj: int| 0 <= jj < j + 1 && incoming@[jj].0 == g && incoming@[jj].1 != x;
                            if jj == j {
                                assert(incoming@[j as int].1 == source);
                            }
                        }
                    }
                }
            }
            j = j + 1;
        }
        proof {
            let ed = self.edges();
            assert forall|fi: usize| #[trigger] m.contains_key(fi)
                <==> (e.contains_key(fi) && e[fi].1 == x && e[fi].0 != x && exit_target(e, x) != x) by {
                if e.contains_key(fi) && e[fi].1 == x && e[fi].0 != x && dest != x {
                    let i = choose|i: int| 0 <= i < incoming@.len() && incoming@[i].0 == fi;
                    assert(incoming@[i].1 != x);
                }
                if m.contains_key(fi) {
                    let jj = choose|jj: int| 0 <= jj < j && incoming@[jj].0 == fi && incoming@[jj].1 != x;
                    assert(e.contains_key(incoming@[jj].0));
                }
            }
            assert forall|fi: usize| #[trigger] m.contains_key(fi) implies !clear_of(e, x, m[fi]) by {
                if clear_of(e, x, m[fi]) {
                    assert(e.dom().filter(|g: usize| e[g].0 != x && e[g].1 != x).contains(m[fi]));
                }
            }
            assert forall|f: usize| #[trigger] ed.contains_key(f)
                implies clear_of(e, x, f) || exists|fi: usize| #[trigger] m.contains_key(fi) && m[fi] == f by {
                if e1.contains_key(f) {
                    assert(e1.dom().contains(f));
                    assert(e.dom().filter(|g: usize| e[g].0 != x && e[g].1 != x).contains(f));
                }
            }
            assert(redirects(e, x, ed, m));
            assert forall|f: usize| #[trigger] e.contains_key(f) && e[f].0 != x && e[f].1 != x
                implies ed.contains_key(f) && ed[f] == e[f] by {
                assert(e.dom().filter(|g: usize| e[g].0 != x && e[g].1 != x).contains(f));
                assert(e1.contains_key(f));
            }
        }
    }

    /// Collapses the first pass-through node in index order, if there is one.
    fn collapse_first(&mut self) -> (removed: bool)
        requires
            old(self).wf(),
        ensures
            final(self).wf(),
            final(self).entry_node == old(self).entry_node,
            final(self).exit_node == old(self).exit_node,
            !removed ==> final(self).nodes() == old(self).nodes() && final(self).edges() == old(self).edges(),
            !removed ==> forall|k: usize| #[trigger] old(self).nodes().contains_key(k)
                ==> !collapsible(old(self).nodes(), old(self).edges(), k),
            removed ==> exists|x: usize| #[trigger] old(self).nodes().contains_key(x)
                && first_collapsible(old(self).nodes(), old(self).edges(), x)
                && collapse_step(old(self).nodes(), old(self).edges(), final(self).nodes(), final(self).edges(), x),
    {
        let ghost n = self.nodes();
        let ghost e = self.edges();
        let indices = node_indices(&self.graph);
        let mut i: usize = 0;
        while i < indices.len()
            invariant
                self.wf(),
                self.entry_node == old(self).entry_node,
                self.exit_node == old(self).exit_node,
                n == old(self).nodes(),
                e == old(self).edges(),
                self.nodes() == n,
                self.edges() == e,
                0 <= i <= indices@.len(),
                forall|k: usize| #[trigger] indices@.contains(k) <==> n.contains_key(k),
                forall|j: int| 0 <= j < i ==> !collapsible(n, e, #[trigger] indices@[j]),
                forall|a: int, b: int| 0 <= a < b < indices@.len() ==> indices@[a] < indices@[b],
            decreases indices@.len() - i,
        {
            let idx = indices[i];
            proof {
                assert(indices@.contains(idx));
            }
            let empty = block_at(&self.graph, idx).statements.len() == 0;
            if empty {
                let incoming = edges_at(&self.graph, idx, false);
                let outgoing = edges_at(&self.graph, idx, true);
                if incoming.len() > 0 && outgoing.len() == 1 {
                    let out = outgoing[0];
                    proof {
                        assert(touches(e[incoming@[0].0], idx, false));
                        assert(has_predecessor(e, idx));
                        assert forall|f: usize| #[trigger] e.contains_key(f) && e[f].0 == idx implies f == out.0 by {
                            assert(touches(e[f], idx, true));
                        }
                        assert(sole_exit(e, idx, out.0));
                        assert(collapsible(n, e, idx));
                        assert forall|k: usize| #[trigger] n.contains_key(k) && k < idx implies !collapsible(n, e, k) by {
                            assert(indices@.contains(k));
                            let j = choose|j: int| 0 <= j < indices@.len() && indices@[j] == k;
                            if j >= i {
                                if j > i {
                                    assert(indices@[i as int] < indices@[j]);
                                }
                            }
                        }
                        assert(first_collapsible(n, e, idx));
                    }
                    self.bypass_node(idx, &incoming, out);
                    return true;
                }
                proof {
                    if has_predecessor(e, idx) {
                        let f = choose|f: usize| #[trigger] e.contains_key(f) && e[f].1 == idx;
                        assert(touches(e[f], idx, false));
                    }
                    if exists|f: usize| sole_exit(e, idx, f) {
                        let f = choose|f: usize| sole_exit(e, idx, f);
                        assert(touches(e[f], idx, true));
                        if outgoing.len() > 1 {
                            assert(touches(e[outgoing@[0].0], idx, true));
                            assert(touches(e[outgoing@[1].0], idx, true));
                        }
                    }
                }
            }
            i = i + 1;
        }
        proof {
            assert forall|k: usize| #[trigger] n.contains_key(k) implies !collapsible(n, e, k) by {
                assert(indices@.contains(k));
                let j = choose|j: int| 0 <= j < indices@.len() && indices@[j] == k;
            }
        }
        false
    }

    /// Simplifies the graph in place: removes the nodes that no edge
    /// touches, then collapses empty pass-through nodes one at a time, first
    /// in index order, until none is left.
    pub fn tidy_graph(&mut self)
        requires
            old(self).wf(),
        ensures
            final(self).wf(),
            final(self).entry_node == old(self).entry_node,
            final(self).exit_node == old(self).exit_node,
            tidied(old(self).nodes(), old(self).edges(), final(self).nodes(), final(self).edges()),
    {
        let ghost n0 = self.nodes();
        let ghost e0 = self.edges();
        self.prune_isolated();
        proof {
            assert forall|f: usize| #[trigger] e0.contains_key(f) implies exists|p: Seq<usize>| bypass(e0, self.nodes(), p, e0[f].0, e0[f].1, e0[f].2) by {
                let p = seq![e0[f].0, e0[f].1];
                assert(has_edge_at(e0, p, 0));
                assert(bypass(e0, self.nodes(), p, e0[f].0, e0[f].1, e0[f].2));
            }
            if settled_shape(n0, e0) {
                assert(self.nodes() =~= n0);
            }
            assert(self.nodes() =~= pruned(n0, e0));
        }
        let ghost mut ns: Seq<NodeMap> = seq![self.nodes()];
        let ghost mut es: Seq<EdgeMap> = seq![self.edges()];
        let ghost mut xs: Seq<usize> = Seq::empty();
        let mut done = false;
        while !done
            invariant
                self.wf(),
                self.entry_node == old(self).entry_node,
                self.exit_node == old(self).exit_node,
                n0 == old(self).nodes(),
                e0 == old(self).edges(),
                forall|k: usize| #[trigger] self.nodes().contains_key(k) ==> n0.contains_key(k) && self.nodes()[k] == n0[k],
                forall|k: usize| #[trigger] n0.contains_key(k) && n0[k].statements@.len() > 0 && !isolated(e0, k)
                    ==> self.nodes().contains_key(k),
                forall|k: usize| #[trigger] n0.contains_key(k) && isolated(e0, k) ==> !self.nodes().contains_key(k),
                edges_bypass(e0, self.nodes(), self.edges()),
                done ==> forall|k: usize| #[trigger] self.nodes().contains_key(k) ==> !collapsible(self.nodes(), self.edges(), k),
                settled_shape(n0, e0) ==> self.nodes() == n0 && self.edges() == e0,
                forall|a: usize, b: usize| #[trigger] reachable(e0, a, b) && self.nodes().contains_key(a)
                    && self.nodes().contains_key(b) ==> reachable(self.edges(), a, b),
                forall|k: usize| #[trigger] has_predecessor(self.edges(), k) ==> has_predecessor(e0, k),
                forall|k: usize| #[trigger] has_successor(self.edges(), k) ==> has_successor(e0, k),
                forall|k: usize| #[trigger] n0.contains_key(k) && !isolated(e0, k)
                    && (!has_predecessor(e0, k) || !has_successor(e0, k)) ==> self.nodes().contains_key(k),
                forall|f: usize| #[trigger] e0.contains_key(f) && self.nodes().contains_key(e0[f].0)
                    && self.nodes().contains_key(e0[f].1) ==> self.edges().contains_key(f) && self.edges()[f] == e0[f],
                collapse_chain(ns, es, xs),
                ns[0] == pruned(n0, e0),
                es[0] == e0,
                ns.last() == self.nodes(),
                es.last() == self.edges(),
            decreases self.nodes().len() + (if done { 0int } else { 1int }),
        {
            let ghost n = self.nodes();
            let ghost e = self.edges();
            let removed = self.collapse_first();
            if !removed {
                done = true;
            } else {
                proof {
                    let x = choose|x: usize| #[trigger] n.contains_key(x)
                        && first_collapsible(n, e, x)
                        && collapse_step(n, e, self.nodes(), self.edges(), x);
                    let ns1 = ns.push(self.nodes());
                    let es1 = es.push(self.edges());
                    let xs1 = xs.push(x);
                    assert forall|i: int| 0 <= i < xs1.len() implies first_collapsible(#[trigger] ns1[i], es1[i], xs1[i])
                        && collapse_step(ns1[i], es1[i], ns1[i + 1], es1[i + 1], xs1[i]) by {
                        if i < xs.len() {
                            assert(ns1[i] == ns[i] && es1[i] == es[i] && xs1[i] == xs[i]);
                            assert(ns1[i + 1] == ns[i + 1] && es1[i + 1] == es[i + 1]);
                        }
                    }
                    ns = ns1;
                    es = es1;
                    xs = xs1;
                    lemma_collapse_bypass(e0, n, e, self.nodes(), self.edges(), x);
                    lemma_collapse_keeps(n0, e0, n, e, self.nodes(), self.edges(), x);
                    assert forall|a: usize, b: usize| #[trigger] reachable(e0, a, b) && self.nodes().contains_key(a)
                        && self.nodes().contains_key(b) implies reachable(self.edges(), a, b) by {
                        assert(reachable(e, a, b));
                        let p = choose|p: Seq<usize>| #[trigger] is_path(e, p) && p[0] == a && p.last() == b;
                        lemma_collapse_path(n, e, self.nodes(), self.edges(), x, p);
                    }
                    if settled_shape(n0, e0) {
                        assert(!collapsible(n, e, x));
                    }
                }
            }
        }
        proof {
            let ed = self.edges();
            assert forall|a: usize, b: usize| #[trigger] reachable(ed, a, b) implies reachable(e0, a, b) by {
                let p = choose|p: Seq<usize>| #[trigger] is_path(ed, p) && p[0] == a && p.last() == b;
                lemma_bypass_path(e0, self.nodes(), ed, p);
            }
        }
    }
}

/// Simplification brings in no edge kind: where every edge of the graph was
/// a jump or an await before, every edge is one after.
pub proof fn lemma_tidy_keeps_settled(n0: NodeMap, e0: EdgeMap, n1: NodeMap, e1: EdgeMap)
    requires
        tidied(n0, e0, n1, e1),
        all_settled(e0),
    ensures
        all_settled(e1),
{
    assert forall|f: usize| #[trigger] e1.contains_key(f) implies settled(e1[f].2) by {
        let p = choose|p: Seq<usize>| bypass(e0, n1, p, e1[f].0, e1[f].1, e1[f].2);
        let g = choose|g: usize| #[trigger] e0.contains_key(g) && e0[g] == (e1[f].0, p[1], e1[f].2);
    }
}

/// Simplifying twice gives what simplifying once gives, provided the first
/// pass leaves no node that no edge touches: the second pass then has nothing
/// to prune and nothing to collapse.
pub proof fn lemma_tidy_twice(n0: NodeMap, e0: EdgeMap, n1: NodeMap, e1: EdgeMap, n2: NodeMap, e2: EdgeMap)
    requires
        tidied(n0, e0, n1, e1),
        tidied(n1, e1, n2, e2),
        forall|k: usize| #[trigger] n1.contains_key(k) ==> !isolated(e1, k),
    ensures
        n2 == n1,
        e2 == e1,
{
    assert(settled_shape(n1, e1));
}

/// In a graph where every node is reached from an entry node that some edge
/// leaves, as the builder makes them, no node is isolated: simplification
/// then keeps every block that holds statements.
pub proof fn lemma_tidy_keeps_statements(n0: NodeMap, e0: EdgeMap, n1: NodeMap, e1: EdgeMap, entry: usize)
    requires
        tidied(n0, e0, n1, e1),
        all_reachable(n0, e0, entry),
        has_successor(e0, entry),
    ensures
        forall|k: usize| #[trigger] n0.contains_key(k) && n0[k].statements@.len() > 0 ==> n1.contains_key(k),
{
    assert forall|k: usize| #[trigger] n0.contains_key(k) && n0[k].statements@.len() > 0 implies n1.contains_key(k) by {
        if k != entry {
            assert(reachable(e0, entry, k));
            let p = choose|p: Seq<usize>| #[trigger] is_path(e0, p) && p[0] == entry && p.last() == k;
            assert(crate::graph::has_edge(e0, p[p.len() - 2], p[p.len() - 1]));
            let g = choose|g: usize| #[trigger] e0.contains_key(g) && e0[g].0 == p[p.len() - 2] && e0[g].1 == p[p.len() - 1];
            assert(has_predecessor(e0, k));
        }
        assert(!isolated(e0, k));
    }
}

} // verus!