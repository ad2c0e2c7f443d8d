//! Recursive lowering of a statement list into a control-flow graph.
use crate::ast::{lemma_seq_size_prefix, lemma_seq_size_take, seq_size, stmt_size, Statement};
use crate::cfg::{sole_exit, ControlFlowGraph};
use crate::format::{decimal, push_decimal};
use crate::graph::{
    add_edge, add_node, edges_at, graph_edges, graph_nodes, lemma_reach_edge, lemma_reach_mono,
    lemma_reach_refl, lemma_reach_trans, model_wf, new_graph, reachable, replace_block, touches,
    Block, Edge, EdgeMap, NodeMap,
};
use vstd::prelude::*;

verus! {

/// Control can fall off the end of the list: the block that ends it has no
/// successor. A loop that never breaks closes the list; an await after it
/// opens a fresh block again.
pub open spec fn ends_open(s: Seq<Statement>) -> bool
    decreases s.len(),
{
    if s.len() == 0 {
        true
    } else {
        match s.last() {
            Statement::Loop(_) => false,
            Statement::Await(_) => true,
            _ => ends_open(s.drop_last()),
        }
    }
}

/// Handles of the statements that the block open after `s` holds, when the
/// first statement of `s` has handle `first`: the plain statements after the
/// last await or loop.
pub open spec fn open_segment(s: Seq<Statement>, first: nat) -> Seq<usize>
    decreases s.len(),
{
    if s.len() == 0 {
        Seq::empty()
    } else {
        match s.last() {
            Statement::Loop(_) => Seq::empty(),
            Statement::Await(_) => Seq::empty(),
            _ => open_segment(s.drop_last(), first).push((first + seq_size(s.drop_last())) as usize),
        }
    }
}

/// Statement lists of the blocks that `s` closes: each await ends one, each
/// loop ends the one before it and brings those of its body.
pub open spec fn closed_segments(s: Seq<Statement>, first: nat) -> Set<Seq<usize>>
    decreases s, s.len(),
{
    if s.len() == 0 {
        Set::empty()
    } else {
        let p = s.drop_last();
        let h = first + seq_size(p);
        match s.last() {
            Statement::Await(_) => closed_segments(p, first).insert(open_segment(p, first).push(h as usize)),
            Statement::Loop(body) => closed_segments(p, first).insert(open_segment(p, first)).union(
                segments(body@, h + 1),
            ),
            _ => closed_segments(p, first),
        }
    }
}

/// Statement lists of all blocks that lowering `s` yields.
pub open spec fn segments(s: Seq<Statement>, first: nat) -> Set<Seq<usize>>
    decreases s, s.len() + 1,
{
    closed_segments(s, first).insert(open_segment(s, first))
}

/// Nodes that lowering `s` adds: its first block, one per await, and per
/// loop its head, its repeat marker and those of its body.
pub open spec fn fragment_nodes(s: Seq<Statement>) -> nat
    decreases s, s.len(),
{
    if s.len() == 0 {
        1
    } else {
        fragment_nodes(s.drop_last()) + match s.last() {
            Statement::Await(_) => 1,
            Statement::Loop(body) => 2 + fragment_nodes(body@),
            _ => 0,
        }
    }
}

/// Edges that lowering `s` adds: one per await, and per loop four and those
/// of its body.
pub open spec fn fragment_edges(s: Seq<Statement>) -> nat
    decreases s, s.len(),
{
    if s.len() == 0 {
        0
    } else {
        fragment_edges(s.drop_last()) + match s.last() {
            Statement::Await(_) => 1,
            Statement::Loop(body) => 4 + fragment_edges(body@),
            _ => 0,
        }
    }
}

/// Handles of the await statements of `s`, nested ones included.
pub open spec fn await_handles(s: Seq<Statement>, first: nat) -> Set<usize>
    decreases s, s.len(),
{
    if s.len() == 0 {
        Set::empty()
    } else {
        let p = s.drop_last();
        let h = first + seq_size(p);
        match s.last() {
            Statement::Await(_) => await_handles(p, first).insert(h as usize),
            Statement::Loop(body) => await_handles(p, first).union(await_handles(body@, h + 1)),
            _ => await_handles(p, first),
        }
    }
}

proof fn lemma_await_range(s: Seq<Statement>, first: nat)
    requires
        first + seq_size(s) <= usize::MAX,
    ensures
        forall|a: usize| #[trigger] await_handles(s, first).contains(a) ==> first <= a < first + seq_size(s),
    decreases s, s.len(),
{
    if s.len() > 0 {
        let p = s.drop_last();
        let h = first + seq_size(p);
        assert(seq_size(s) == seq_size(p) + stmt_size(s.last()));
        assert(stmt_size(s.last()) >= 1);
        lemma_await_range(p, first);
        match s.last() {
            Statement::Loop(body) => {
                assert(stmt_size(s.last()) == 1 + seq_size(body@));
                lemma_await_range(body@, h + 1);
                assert(await_handles(s, first) == await_handles(p, first).union(await_handles(body@, h + 1)));
            },
            Statement::Await(_) => {
                assert(await_handles(s, first) == await_handles(p, first).insert(h as usize));
            },
            _ => {
                assert(await_handles(s, first) == await_handles(p, first));
            },
        }
    }
}

proof fn lemma_open_not_await(s: Seq<Statement>, first: nat)
    requires
        first + seq_size(s) <= usize::MAX,
    ensures
        forall|j: int| 0 <= j < open_segment(s, first).len()
            ==> !await_handles(s, first).contains(#[trigger] open_segment(s, first)[j]),
    decreases s.len(),
{
    if s.len() > 0 {
        let p = s.drop_last();
        let h = first + seq_size(p);
        assert(seq_size(s) == seq_size(p) + stmt_size(s.last()));
        lemma_open_not_await(p, first);
        lemma_await_range(p, first);
        match s.last() {
            Statement::Loop(_) => {},
            Statement::Await(_) => {},
            _ => {
                assert forall|j: int| 0 <= j < open_segment(s, first).len()
                    implies !await_handles(s, first).contains(#[trigger] open_segment(s, first)[j]) by {
                    if j < open_segment(p, first).len() {
                        assert(open_segment(s, first)[j] == open_segment(p, first)[j]);
                    } else {
                        assert(open_segment(s, first)[j] == h as usize);
                        assert(await_handles(s, first) == await_handles(p, first));
                    }
                }
            },
        }
    }
}

/// The await edges among those added since `e0`: each leaves a block whose
/// last statement is one of the awaits `w`, is the only await edge leaving
/// it and the only edge entering its target; and every new block whose last
/// statement is one of `w` is left by such an edge.
pub open spec fn awaits_wired(n0: NodeMap, e0: EdgeMap, nodes: NodeMap, edges: EdgeMap, w: Set<usize>) -> bool {
    &&& forall|f: usize| #[trigger] edges.contains_key(f) && !e0.contains_key(f) && edges[f].2 == Edge::Await ==> {
        &&& nodes[edges[f].0].statements@.len() > 0
        &&& w.contains(nodes[edges[f].0].statements@.last())
        &&& edges[f].0 != edges[f].1
        &&& forall|g: usize| #[trigger] edges.contains_key(g) && edges[g].0 == edges[f].0 && edges[g].2 == Edge::Await
            ==> g == f
        &&& forall|g: usize| #[trigger] edges.contains_key(g) && edges[g].1 == edges[f].1 ==> g == f
    }
    &&& forall|k: usize| #[trigger] is_new(n0, nodes, k) && nodes[k].statements@.len() > 0
        && w.contains(nodes[k].statements@.last())
        ==> exists|f: usize| #[trigger] edges.contains_key(f) && edges[f].0 == k && edges[f].2 == Edge::Await
}

proof fn lemma_wired_plain(
    n0: NodeMap,
    e0: EdgeMap,
    nodes: NodeMap,
    edges: EdgeMap,
    nodes1: NodeMap,
    end: usize,
    w: Set<usize>,
    h: usize,
)
    requires
        awaits_wired(n0, e0, nodes, edges, w),
        nodes.contains_key(end),
        forall|j: int| 0 <= j < nodes[end].statements@.len() ==> !w.contains(#[trigger] nodes[end].statements@[j]),
        !w.contains(h),
        nodes1.dom() == nodes.dom(),
        forall|k: usize| k != end && #[trigger] nodes.contains_key(k) ==> nodes1[k] == nodes[k],
        nodes1[end].statements@ == nodes[end].statements@.push(h),
        model_wf(nodes, edges),
    ensures
        awaits_wired(n0, e0, nodes1, edges, w),
{
    assert forall|f: usize| #[trigger] edges.contains_key(f) && !e0.contains_key(f) && edges[f].2 == Edge::Await
        implies nodes1[edges[f].0] == nodes[edges[f].0] by {
        let u = edges[f].0;
        if u == end {
            let l = nodes[end].statements@.len() - 1;
            assert(!w.contains(nodes[end].statements@[l]));
        }
    }
    assert forall|k: usize| #[trigger] is_new(n0, nodes1, k) && nodes1[k].statements@.len() > 0
        && w.contains(nodes1[k].statements@.last())
        implies exists|f: usize| #[trigger] edges.contains_key(f) && edges[f].0 == k && edges[f].2 == Edge::Await by {
        assert(k != end);
        assert(is_new(n0, nodes, k));
    }
}

proof fn lemma_wired_await(
    n0: NodeMap,
    e0: EdgeMap,
    nodes: NodeMap,
    edges: EdgeMap,
    nodes2: NodeMap,
    edges2: EdgeMap,
    end: usize,
    b: usize,
    f0: usize,
    w: Set<usize>,
    h: usize,
)
    requires
        awaits_wired(n0, e0, nodes, edges, w),
        model_wf(nodes, edges),
        model_wf(n0, e0),
        e0.submap_of(edges),
        is_new(n0, nodes, end),
        forall|j: int| 0 <= j < nodes[end].statements@.len() ==> !w.contains(#[trigger] nodes[end].statements@[j]),
        forall|k: usize, j: int| #[trigger] is_new(n0, nodes, k) && 0 <= j < nodes[k].statements@.len()
            ==> #[trigger] nodes[k].statements@[j] < h,
        !nodes.contains_key(b),
        !n0.contains_key(b),
        nodes2.dom() == nodes.dom().insert(b),
        forall|k: usize| k != end && #[trigger] nodes.contains_key(k) ==> nodes2[k] == nodes[k],
        nodes2[end].statements@ == nodes[end].statements@.push(h),
        nodes2[b].statements@.len() == 0,
        !edges.contains_key(f0),
        edges2 == edges.insert(f0, (end, b, Edge::Await)),
    ensures
        awaits_wired(n0, e0, nodes2, edges2, w.insert(h)),
{
    let w2 = w.insert(h);
    assert forall|f: usize| #[trigger] edges.contains_key(f) && !e0.contains_key(f) && edges[f].2 == Edge::Await
        implies edges[f].0 != end by {
        if edges[f].0 == end {
            let l = nodes[end].statements@.len() - 1;
            assert(!w.contains(nodes[end].statements@[l]));
        }
    }
    assert forall|g: usize| #[trigger] edges.contains_key(g) implies edges[g].1 != b && edges[g].0 != b
        && (edges[g].0 == end && edges[g].2 == Edge::Await ==> false) by {
        if e0.contains_key(g) {
            assert(e0[g] == edges[g]);
            assert(n0.contains_key(edges[g].0));
        } else if edges[g].0 == end && edges[g].2 == Edge::Await {
        }
    }
    assert forall|f: usize| #[trigger] edges2.contains_key(f) && !e0.contains_key(f) && edges2[f].2 == Edge::Await
        implies {
            &&& nodes2[edges2[f].0].statements@.len() > 0
            &&& w2.contains(nodes2[edges2[f].0].statements@.last())
            &&& edges2[f].0 != edges2[f].1
            &&& forall|g: usize| #[trigger] edges2.contains_key(g) && edges2[g].0 == edges2[f].0 && edges2[g].2 == Edge::Await
                ==> g == f
            &&& forall|g: usize| #[trigger] edges2.contains_key(g) && edges2[g].1 == edges2[f].1 ==> g == f
        } by {
        if f != f0 {
            assert(edges.contains_key(f) && edges2[f] == edges[f]);
            assert(nodes2[edges[f].0] == nodes[edges[f].0]);
            assert(nodes.contains_key(edges[f].1));
        }
    }
    assert forall|k: usize| #[trigger] is_new(n0, nodes2, k) && nodes2[k].statements@.len() > 0
        && w2.contains(nodes2[k].statements@.last())
        implies exists|f: usize| #[trigger] edges2.contains_key(f) && edges2[f].0 == k && edges2[f].2 == Edge::Await by {
        if k == end {
            assert(edges2.contains_key(f0) && edges2[f0].0 == k);
        } else {
            assert(is_new(n0, nodes, k) && nodes2[k] == nodes[k]);
            let l = nodes[k].statements@.len() - 1;
            assert(nodes[k].statements@[l] < h);
            let f = choose|f: usize| #[trigger] edges.contains_key(f) && edges[f].0 == k && edges[f].2 == Edge::Await;
            assert(edges2.contains_key(f));
        }
    }
}

proof fn lemma_wired_loop(
    n0: NodeMap,
    e0: EdgeMap,
    nodes: NodeMap,
    edges: EdgeMap,
    nodes3: NodeMap,
    edges3: EdgeMap,
    end: usize,
    w: Set<usize>,
    wn: Set<usize>,
    h: nat,
)
    requires
        awaits_wired(n0, e0, nodes, edges, w),
        awaits_wired(nodes, edges, nodes3, edges3, wn),
        keeps(nodes, nodes3),
        edges.submap_of(edges3),
        model_wf(nodes, edges),
        is_new(n0, nodes, end),
        forall|j: int| 0 <= j < nodes[end].statements@.len() ==> !w.contains(#[trigger] nodes[end].statements@[j]),
        forall|f: usize| #[trigger] edges3.contains_key(f) && !edges.contains_key(f) ==> !nodes.contains_key(edges3[f].1)
            && (edges3[f].0 == end || !nodes.contains_key(edges3[f].0))
            && (edges3[f].0 == end ==> edges3[f].2 == Edge::Jump),
        forall|k: usize, j: int| #[trigger] is_new(nodes, nodes3, k) && 0 <= j < nodes3[k].statements@.len()
            ==> #[trigger] nodes3[k].statements@[j] > h,
        forall|k: usize, j: int| #[trigger] is_new(n0, nodes, k) && 0 <= j < nodes[k].statements@.len()
            ==> #[trigger] nodes[k].statements@[j] < h,
        forall|a: usize| #[trigger] w.contains(a) ==> a < h,
        forall|a: usize| #[trigger] wn.contains(a) ==> a > h,
    ensures
        awaits_wired(n0, e0, nodes3, edges3, w.union(wn)),
{
    let wu = w.union(wn);
    assert forall|f: usize| #[trigger] edges3.contains_key(f) && !e0.contains_key(f) && edges3[f].2 == Edge::Await
        implies {
            &&& nodes3[edges3[f].0].statements@.len() > 0
            &&& wu.contains(nodes3[edges3[f].0].statements@.last())
            &&& edges3[f].0 != edges3[f].1
            &&& forall|g: usize| #[trigger] edges3.contains_key(g) && edges3[g].0 == edges3[f].0 && edges3[g].2 == Edge::Await
                ==> g == f
            &&& forall|g: usize| #[trigger] edges3.contains_key(g) && edges3[g].1 == edges3[f].1 ==> g == f
        } by {
        if edges.contains_key(f) {
            assert(edges3[f] == edges[f]);
            let u = edges[f].0;
            if u == end {
                let l = nodes[end].statements@.len() - 1;
                assert(!w.contains(nodes[end].statements@[l]));
            }
            assert(nodes.contains_key(u) && nodes.contains_key(edges[f].1));
            assert(nodes3[u] == nodes[u]);
            assert forall|g: usize| #[trigger] edges3.contains_key(g) && edges3[g].0 == edges3[f].0 && edges3[g].2 == Edge::Await
                implies g == f by {
                if edges.contains_key(g) {
                    assert(edges3[g] == edges[g]);
                }
            }
            assert forall|g: usize| #[trigger] edges3.contains_key(g) && edges3[g].1 == edges3[f].1 implies g == f by {
                if edges.contains_key(g) {
                    assert(edges3[g] == edges[g]);
                }
            }
        }
    }
    assert forall|k: usize| #[trigger] is_new(n0, nodes3, k) && nodes3[k].statements@.len() > 0
        && wu.contains(nodes3[k].statements@.last())
        implies exists|f: usize| #[trigger] edges3.contains_key(f) && edges3[f].0 == k && edges3[f].2 == Edge::Await by {
        let l = nodes3[k].statements@.len() - 1;
        if nodes.contains_key(k) {
            assert(is_new(n0, nodes, k) && nodes3[k] == nodes[k]);
            assert(nodes[k].statements@[l] < h);
            let f = choose|f: usize| #[trigger] edges.contains_key(f) && edges[f].0 == k && edges[f].2 == Edge::Await;
            assert(edges.dom().contains(f));
            assert(edges3.dom().contains(f));
            assert(edges3.contains_key(f) && edges3[f] == edges[f]);
        } else {
            assert(is_new(nodes, nodes3, k));
            assert(nodes3[k].statements@[l] > h);
        }
    }
}

/// Adding nodes without statements, and edges of other kinds that enter no
/// target of an await edge, keeps the await edges as they were.
proof fn lemma_wired_widen(
    n0: NodeMap,
    e0: EdgeMap,
    n1: NodeMap,
    e1: EdgeMap,
    n2: NodeMap,
    e2: EdgeMap,
    e3: EdgeMap,
    w: Set<usize>,
)
    requires
        awaits_wired(n1, e1, n2, e2, w),
        keeps(n0, n1),
        keeps(n1, n2),
        forall|k: usize| #[trigger] is_new(n0, n1, k) ==> n1[k].statements@.len() == 0,
        e0.submap_of(e1),
        e1.submap_of(e2),
        e2.submap_of(e3),
        forall|f: usize| #[trigger] e1.contains_key(f) && !e0.contains_key(f) ==> e1[f].2 != Edge::Await,
        forall|f: usize| #[trigger] e3.contains_key(f) && !e2.contains_key(f) ==> e3[f].2 != Edge::Await,
        forall|f: usize, g: usize| #[trigger] e3.contains_key(f) && !e2.contains_key(f) && #[trigger] e2.contains_key(g)
            && !e1.contains_key(g) && e2[g].2 == Edge::Await ==> e3[f].1 != e2[g].1,
    ensures
        awaits_wired(n0, e0, n2, e3, w),
{
    assert forall|f: usize| #[trigger] e3.contains_key(f) && !e0.contains_key(f) && e3[f].2 == Edge::Await
        implies {
            &&& n2[e3[f].0].statements@.len() > 0
            &&& w.contains(n2[e3[f].0].statements@.last())
            &&& e3[f].0 != e3[f].1
            &&& forall|g: usize| #[trigger] e3.contains_key(g) && e3[g].0 == e3[f].0 && e3[g].2 == Edge::Await
                ==> g == f
            &&& forall|g: usize| #[trigger] e3.contains_key(g) && e3[g].1 == e3[f].1 ==> g == f
        } by {
        if e1.contains_key(f) {
            assert(e2.contains_key(f) && e2[f] == e1[f]);
            assert(e1[f] == e3[f]);
        } else if !e2.contains_key(f) {
        } else {
            assert(e2[f] == e3[f]);
            assert forall|g: usize| #[trigger] e3.contains_key(g) && e3[g].0 == e3[f].0 && e3[g].2 == Edge::Await
                implies g == f by {
                if !e2.contains_key(g) {
                    assert(e3[g].2 != Edge::Await);
                } else {
                    assert(e2[g] == e3[g]);
                }
            }
            assert forall|g: usize| #[trigger] e3.contains_key(g) && e3[g].1 == e3[f].1 implies g == f by {
                if !e2.contains_key(g) {
                    assert(e3[g].1 != e2[f].1);
                } else {
                    assert(e2[g] == e3[g]);
                }
            }
        }
    }
    assert forall|k: usize| #[trigger] is_new(n0, n2, k) && n2[k].statements@.len() > 0
        && w.contains(n2[k].statements@.last())
        implies exists|f: usize| #[trigger] e3.contains_key(f) && e3[f].0 == k && e3[f].2 == Edge::Await by {
        if n1.contains_key(k) {
            assert(is_new(n0, n1, k));
        } else {
            assert(is_new(n1, n2, k));
            let f = choose|f: usize| #[trigger] e2.contains_key(f) && e2[f].0 == k && e2[f].2 == Edge::Await;
            assert(e2.dom().contains(f));
            assert(e3.dom().contains(f));
            assert(e3.contains_key(f) && e3[f] == e2[f]);
        }
    }
}

/// A node added since `n0`.
pub open spec fn is_new(n0: NodeMap, nodes: NodeMap, k: usize) -> bool {
    nodes.contains_key(k) && !n0.contains_key(k)
}

/// The blocks of the nodes added since `n0` hold exactly the non-empty lists
/// of `segs`, each in one node, with handles in `[lo, hi)`, no handle twice.
pub open spec fn holds_segments(n0: NodeMap, nodes: NodeMap, segs: Set<Seq<usize>>, lo: nat, hi: nat) -> bool {
    &&& forall|k: usize| #[trigger] is_new(n0, nodes, k) && nodes[k].statements@.len() > 0
        ==> segs.contains(nodes[k].statements@)
    &&& forall|seg: Seq<usize>| #[trigger] segs.contains(seg) && seg.len() > 0
        ==> exists|k: usize| #[trigger] is_new(n0, nodes, k) && nodes[k].statements@ == seg
    &&& forall|k: usize, j: int| #[trigger] is_new(n0, nodes, k) && 0 <= j < nodes[k].statements@.len()
        ==> lo <= #[trigger] nodes[k].statements@[j] < hi
    &&& forall|k1: usize, k2: usize, j1: int, j2: int|
        #![trigger nodes[k1].statements@[j1], nodes[k2].statements@[j2]]
        is_new(n0, nodes, k1) && is_new(n0, nodes, k2) && k1 != k2
        && 0 <= j1 < nodes[k1].statements@.len() && 0 <= j2 < nodes[k2].statements@.len()
        ==> nodes[k1].statements@[j1] != nodes[k2].statements@[j2]
}

/// Handles in the blocks of new nodes lie in `[lo, hi)`, and no handle is in
/// two of them.
pub open spec fn handles_apart(n0: NodeMap, nodes: NodeMap, lo: nat, hi: nat) -> bool {
    &&& forall|k: usize, j: int| #[trigger] is_new(n0, nodes, k) && 0 <= j < nodes[k].statements@.len()
        ==> lo <= #[trigger] nodes[k].statements@[j] < hi
    &&& forall|k1: usize, k2: usize, j1: int, j2: int|
        #![trigger nodes[k1].statements@[j1], nodes[k2].statements@[j2]]
        is_new(n0, nodes, k1) && is_new(n0, nodes, k2) && k1 != k2
        && 0 <= j1 < nodes[k1].statements@.len() && 0 <= j2 < nodes[k2].statements@.len()
        ==> nodes[k1].statements@[j1] != nodes[k2].statements@[j2]
}

/// While a list is lowered: the current block `end` holds `open`, the other
/// new blocks hold exactly the non-empty lists of `closed`.
spec fn fragment_blocks(
    n0: NodeMap,
    nodes: NodeMap,
    end: usize,
    open: Seq<usize>,
    closed: Set<Seq<usize>>,
    lo: nat,
    hi: nat,
) -> bool {
    &&& is_new(n0, nodes, end)
    &&& nodes[end].statements@ == open
    &&& forall|k: usize| #[trigger] is_new(n0, nodes, k) && k != end && nodes[k].statements@.len() > 0
        ==> closed.contains(nodes[k].statements@)
    &&& forall|seg: Seq<usize>| #[trigger] closed.contains(seg) && seg.len() > 0
        ==> exists|k: usize| #[trigger] is_new(n0, nodes, k) && k != end && nodes[k].statements@ == seg
    &&& handles_apart(n0, nodes, lo, hi)
}

proof fn lemma_fragment_done(
    n0: NodeMap,
    nodes: NodeMap,
    end: usize,
    open: Seq<usize>,
    closed: Set<Seq<usize>>,
    lo: nat,
    hi: nat,
)
    requires
        fragment_blocks(n0, nodes, end, open, closed, lo, hi),
    ensures
        holds_segments(n0, nodes, closed.insert(open), lo, hi),
{
    assert forall|seg: Seq<usize>| #[trigger] closed.insert(open).contains(seg) && seg.len() > 0
        implies exists|k: usize| #[trigger] is_new(n0, nodes, k) && nodes[k].statements@ == seg by {
        if seg == open {
            assert(is_new(n0, nodes, end));
        }
    }
}

proof fn lemma_fragment_plain(
    n0: NodeMap,
    nodes: NodeMap,
    nodes1: NodeMap,
    end: usize,
    open: Seq<usize>,
    closed: Set<Seq<usize>>,
    lo: nat,
    h: nat,
)
    requires
        fragment_blocks(n0, nodes, end, open, closed, lo, h),
        lo <= h,
        h < usize::MAX,
        nodes1.dom() == nodes.dom(),
        forall|k: usize| k != end && #[trigger] nodes.contains_key(k) ==> nodes1[k] == nodes[k],
        nodes1[end].statements@ == nodes[end].statements@.push(h as usize),
    ensures
        fragment_blocks(n0, nodes1, end, open.push(h as usize), closed, lo, h + 1),
{
    assert forall|k: usize| #[trigger] is_new(n0, nodes1, k) == is_new(n0, nodes, k) by {}
    assert forall|seg: Seq<usize>| #[trigger] closed.contains(seg) && seg.len() > 0
        implies exists|k: usize| #[trigger] is_new(n0, nodes1, k) && k != end && nodes1[k].statements@ == seg by {
        let k = choose|k: usize| #[trigger] is_new(n0, nodes, k) && k != end && nodes[k].statements@ == seg;
        assert(is_new(n0, nodes1, k));
    }
    assert forall|k: usize, j: int| #[trigger] is_new(n0, nodes1, k) && 0 <= j < nodes1[k].statements@.len()
        implies lo <= #[trigger] nodes1[k].statements@[j] < h + 1 by {
        if k == end && j < nodes[k].statements@.len() {
            assert(nodes1[k].statements@[j] == nodes[k].statements@[j]);
        }
    }
    assert forall|k1: usize, k2: usize, j1: int, j2: int|
        #![trigger nodes1[k1].statements@[j1], nodes1[k2].statements@[j2]]
        is_new(n0, nodes1, k1) && is_new(n0, nodes1, k2) && k1 != k2
        && 0 <= j1 < nodes1[k1].statements@.len() && 0 <= j2 < nodes1[k2].statements@.len()
        implies nodes1[k1].statements@[j1] != nodes1[k2].statements@[j2] by {
        if k1 == end && j1 < nodes[k1].statements@.len() {
            assert(nodes1[k1].statements@[j1] == nodes[k1].statements@[j1]);
            assert(nodes1[k2].statements@[j2] == nodes[k2].statements@[j2]);
        } else if k2 == end && j2 < nodes[k2].statements@.len() {
            assert(nodes1[k1].statements@[j1] == nodes[k1].statements@[j1]);
            assert(nodes1[k2].statements@[j2] == nodes[k2].statements@[j2]);
        } else if k1 == end {
            assert(nodes1[k2].statements@[j2] == nodes[k2].statements@[j2]);
            assert(nodes[k2].statements@[j2] < h);
        } else if k2 == end {
            assert(nodes1[k1].statements@[j1] == nodes[k1].statements@[j1]);
            assert(nodes[k1].statements@[j1] < h);
        } else {
            assert(nodes1[k1].statements@[j1] == nodes[k1].statements@[j1]);
            assert(nodes1[k2].statements@[j2] == nodes[k2].statements@[j2]);
        }
    }
}

proof fn lemma_fragment_close(
    n0: NodeMap,
    nodes: NodeMap,
    nodes1: NodeMap,
    end: usize,
    b: usize,
    open: Seq<usize>,
    closed: Set<Seq<usize>>,
    lo: nat,
    hi: nat,
)
    requires
        fragment_blocks(n0, nodes, end, open, closed, lo, hi),
        !nodes.contains_key(b),
        !n0.contains_key(b),
        nodes1.dom() == nodes.dom().insert(b),
        forall|k: usize| #[trigger] nodes.contains_key(k) ==> nodes1[k] == nodes[k],
        nodes1[b].statements@.len() == 0,
    ensures
        fragment_blocks(n0, nodes1, b, Seq::empty(), closed.insert(open), lo, hi),
{
    assert(nodes1[b].statements@ =~= Seq::<usize>::empty());
    assert forall|k: usize| #[trigger] is_new(n0, nodes1, k) implies k == b || (is_new(n0, nodes, k) && nodes1[k] == nodes[k]) by {}
    assert forall|seg: Seq<usize>| #[trigger] closed.insert(open).contains(seg) && seg.len() > 0
        implies exists|k: usize| #[trigger] is_new(n0, nodes1, k) && k != b && nodes1[k].statements@ == seg by {
        if seg == open {
            assert(is_new(n0, nodes1, end));
        } else {
            let k = choose|k: usize| #[trigger] is_new(n0, nodes, k) && k != end && nodes[k].statements@ == seg;
            assert(is_new(n0, nodes1, k));
        }
    }
    assert forall|k: usize| #[trigger] is_new(n0, nodes1, k) && k != b && nodes1[k].statements@.len() > 0
        implies closed.insert(open).contains(nodes1[k].statements@) by {
        assert(is_new(n0, nodes, k));
    }
    assert forall|k: usize, j: int| #[trigger] is_new(n0, nodes1, k) && 0 <= j < nodes1[k].statements@.len()
        implies lo <= #[trigger] nodes1[k].statements@[j] < hi by {
        assert(is_new(n0, nodes, k));
    }
    assert forall|k1: usize, k2: usize, j1: int, j2: int|
        #![trigger nodes1[k1].statements@[j1], nodes1[k2].statements@[j2]]
        is_new(n0, nodes1, k1) && is_new(n0, nodes1, k2) && k1 != k2
        && 0 <= j1 < nodes1[k1].statements@.len() && 0 <= j2 < nodes1[k2].statements@.len()
        implies nodes1[k1].statements@[j1] != nodes1[k2].statements@[j2] by {
        assert(is_new(n0, nodes, k1) && is_new(n0, nodes, k2));
        assert(nodes[k1].statements@[j1] != nodes[k2].statements@[j2]);
    }
}

proof fn lemma_fragment_loop(
    n0: NodeMap,
    nodes: NodeMap,
    nodes3: NodeMap,
    end: usize,
    r: usize,
    open: Seq<usize>,
    closed: Set<Seq<usize>>,
    segs: Set<Seq<usize>>,
    lo: nat,
    h: nat,
    hi: nat,
)
    requires
        fragment_blocks(n0, nodes, end, open, closed, lo, h),
        forall|k: usize| #[trigger] n0.contains_key(k) ==> nodes.contains_key(k),
        keeps(nodes, nodes3),
        holds_segments(nodes, nodes3, segs, h + 1, hi),
        lo <= h,
        h < hi,
        is_new(nodes, nodes3, r),
        nodes3[r].statements@.len() == 0,
    ensures
        fragment_blocks(n0, nodes3, r, Seq::empty(), closed.insert(open).union(segs), lo, hi),
{
    let all = closed.insert(open).union(segs);
    assert(nodes3[r].statements@ =~= Seq::<usize>::empty());
    assert forall|k: usize| #[trigger] is_new(n0, nodes3, k)
        implies is_new(nodes, nodes3, k) || (is_new(n0, nodes, k) && nodes3[k] == nodes[k]) by {}
    assert(is_new(n0, nodes3, r));
    assert forall|seg: Seq<usize>| #[trigger] all.contains(seg) && seg.len() > 0
        implies exists|k: usize| #[trigger] is_new(n0, nodes3, k) && k != r && nodes3[k].statements@ == seg by {
        if segs.contains(seg) {
            let k = choose|k: usize| #[trigger] is_new(nodes, nodes3, k) && nodes3[k].statements@ == seg;
            assert(is_new(n0, nodes3, k));
        } else if seg == open {
            assert(is_new(n0, nodes3, end));
        } else {
            let k = choose|k: usize| #[trigger] is_new(n0, nodes, k) && k != end && nodes[k].statements@ == seg;
            assert(is_new(n0, nodes3, k));
        }
    }
    assert forall|k: usize| #[trigger] is_new(n0, nodes3, k) && k != r && nodes3[k].statements@.len() > 0
        implies all.contains(nodes3[k].statements@) by {
        if is_new(nodes, nodes3, k) {
            assert(segs.contains(nodes3[k].statements@));
        } else {
            assert(is_new(n0, nodes, k));
        }
    }
    assert forall|k: usize, j: int| #[trigger] is_new(n0, nodes3, k) && 0 <= j < nodes3[k].statements@.len()
        implies lo <= #[trigger] nodes3[k].statements@[j] < hi by {
        if !is_new(nodes, nodes3, k) {
            assert(is_new(n0, nodes, k));
            assert(nodes[k].statements@[j] < h);
        }
    }
    assert forall|k1: usize, k2: usize, j1: int, j2: int|
        #![trigger nodes3[k1].statements@[j1], nodes3[k2].statements@[j2]]
        is_new(n0, nodes3, k1) && is_new(n0, nodes3, k2) && k1 != k2
        && 0 <= j1 < nodes3[k1].statements@.len() && 0 <= j2 < nodes3[k2].statements@.len()
        implies nodes3[k1].statements@[j1] != nodes3[k2].statements@[j2] by {
        if is_new(nodes, nodes3, k1) && is_new(nodes, nodes3, k2) {
        } else if is_new(nodes, nodes3, k1) {
            assert(nodes[k2].statements@[j2] < h);
            assert(nodes3[k1].statements@[j1] >= h + 1);
        } else if is_new(nodes, nodes3, k2) {
            assert(nodes[k1].statements@[j1] < h);
            assert(nodes3[k2].statements@[j2] >= h + 1);
        } else {
            assert(nodes[k1].statements@[j1] != nodes[k2].statements@[j2]);
        }
    }
}

proof fn lemma_holds_widen(n0: NodeMap, n1: NodeMap, n2: NodeMap, segs: Set<Seq<usize>>, lo: nat, hi: nat)
    requires
        keeps(n0, n1),
        keeps(n1, n2),
        holds_segments(n1, n2, segs, lo, hi),
        forall|k: usize| #[trigger] is_new(n0, n1, k) ==> n1[k].statements@.len() == 0,
    ensures
        holds_segments(n0, n2, segs, lo, hi),
{
    assert forall|k: usize| #[trigger] is_new(n0, n2, k) && !is_new(n1, n2, k)
        implies n2[k].statements@.len() == 0 by {
        assert(is_new(n0, n1, k));
    }
    assert forall|seg: Seq<usize>| #[trigger] segs.contains(seg) && seg.len() > 0
        implies exists|k: usize| #[trigger] is_new(n0, n2, k) && n2[k].statements@ == seg by {
        let k = choose|k: usize| #[trigger] is_new(n1, n2, k) && n2[k].statements@ == seg;
        assert(is_new(n0, n2, k));
    }
}

proof fn lemma_holds_add_empty(n0: NodeMap, n1: NodeMap, n2: NodeMap, x: usize, segs: Set<Seq<usize>>, lo: nat, hi: nat)
    requires
        holds_segments(n0, n1, segs, lo, hi),
        !n1.contains_key(x),
        n2.dom() == n1.dom().insert(x),
        keeps(n1, n2),
        n2[x].statements@.len() == 0,
    ensures
        holds_segments(n0, n2, segs, lo, hi),
{
    assert forall|k: usize| #[trigger] is_new(n0, n2, k) implies k == x || (is_new(n0, n1, k) && n2[k] == n1[k]) by {}
    assert forall|seg: Seq<usize>| #[trigger] segs.contains(seg) && seg.len() > 0
        implies exists|k: usize| #[trigger] is_new(n0, n2, k) && n2[k].statements@ == seg by {
        let k = choose|k: usize| #[trigger] is_new(n0, n1, k) && n1[k].statements@ == seg;
        assert(is_new(n0, n2, k));
    }
    assert forall|k: usize| #[trigger] is_new(n0, n2, k) && n2[k].statements@.len() > 0
        implies segs.contains(n2[k].statements@) by {
        assert(is_new(n0, n1, k));
    }
    assert forall|k: usize, j: int| #[trigger] is_new(n0, n2, k) && 0 <= j < n2[k].statements@.len()
        implies lo <= #[trigger] n2[k].statements@[j] < hi by {
        assert(is_new(n0, n1, k));
    }
    assert forall|k1: usize, k2: usize, j1: int, j2: int|
        #![trigger n2[k1].statements@[j1], n2[k2].statements@[j2]]
        is_new(n0, n2, k1) && is_new(n0, n2, k2) && k1 != k2
        && 0 <= j1 < n2[k1].statements@.len() && 0 <= j2 < n2[k2].statements@.len()
        implies n2[k1].statements@[j1] != n2[k2].statements@[j2] by {
        assert(is_new(n0, n1, k1) && is_new(n0, n1, k2));
        assert(n1[k1].statements@[j1] != n1[k2].statements@[j2]);
    }
}

/// Some edge leaves node `k`.
pub open spec fn has_successor(edges: EdgeMap, k: usize) -> bool {
    exists|e: usize| #[trigger] edges.contains_key(e) && edges[e].0 == k
}

/// The edge kinds that a finished graph may hold.
pub open spec fn settled(kind: Edge) -> bool {
    kind == Edge::Jump || kind == Edge::Await
}

/// A transfer out of a fragment that an enclosing construct has to bind.
#[derive(Debug)]
struct PreviousNode {
    parent: usize,
    edge: Edge,
}

/// What building a statement list leaves: where it starts, where control is
/// after it, and the transfers still to bind.
struct BuildResult {
    start_block: usize,
    end_block: usize,
    unresolved_exits: Vec<PreviousNode>,
}

spec fn kind_is(kind: Edge) -> spec_fn(PreviousNode) -> bool {
    |x: PreviousNode| x.edge == kind
}

spec fn kind_is_not(kind: Edge) -> spec_fn(PreviousNode) -> bool {
    |x: PreviousNode| x.edge != kind
}

/// What a filter keeps comes from the list, and passes the test.
proof fn lemma_filter_from(s: Seq<PreviousNode>, pred: spec_fn(PreviousNode) -> bool, i: int)
    requires
        0 <= i < s.filter(pred).len(),
    ensures
        s.contains(s.filter(pred)[i]),
        pred(s.filter(pred)[i]),
    decreases s.len(),
{
    reveal(Seq::filter);
    let sub = s.drop_last().filter(pred);
    if i < sub.len() {
        lemma_filter_from(s.drop_last(), pred, i);
        let j = choose|j: int| 0 <= j < s.drop_last().len() && s.drop_last()[j] == sub[i];
        assert(s[j] == sub[i]);
    } else {
        assert(s[s.len() - 1] == s.filter(pred)[i]);
    }
}

impl BuildResult {
    /// Takes out the pending transfers of `kind` and returns their origins,
    /// in order.
    fn resolve_exits(&mut self, kind: Edge) -> (matches: Vec<usize>)
        ensures
            final(self).start_block == old(self).start_block,
            final(self).end_block == old(self).end_block,
            final(self).unresolved_exits@ == old(self).unresolved_exits@.filter(kind_is_not(kind)),
            matches@ == old(self).unresolved_exits@.filter(kind_is(kind)).map_values(
                |x: PreviousNode| x.parent,
            ),
    {
        let mut matches: Vec<usize> = Vec::new();
        let mut rest: Vec<PreviousNode> = Vec::new();
        let ghost all = self.unresolved_exits@;
        let mut i: usize = 0;
        while i < self.unresolved_exits.len()
            invariant
                all == self.unresolved_exits@,
                0 <= i <= all.len(),
                rest@ == all.take(i as int).filter(kind_is_not(kind)),
                matches@ == all.take(i as int).filter(kind_is(kind)).map_values(
                    |x: PreviousNode| x.parent,
                ),
            decreases all.len() - i,
        {
            let exit = &self.unresolved_exits[i];
            proof {
                let t = all.take(i + 1);
                reveal(Seq::filter);
                assert(kind_is(kind)(all[i as int]) == (all[i as int].edge == kind));
                assert(kind_is_not(kind)(all[i as int]) == (all[i as int].edge != kind));
                assert(t.drop_last() =~= all.take(i as int));
                assert(t.last() == all[i as int]);
                if all[i as int].edge == kind {
                    assert(t.filter(kind_is(kind)) == all.take(i as int).filter(kind_is(kind)).push(all[i as int]));
                    assert(t.filter(kind_is_not(kind)) == all.take(i as int).filter(kind_is_not(kind)));
                } else {
                    assert(t.filter(kind_is(kind)) == all.take(i as int).filter(kind_is(kind)));
                    assert(t.filter(kind_is_not(kind)) == all.take(i as int).filter(kind_is_not(kind)).push(all[i as int]));
                }
            }
            if exit.edge == kind {
                matches.push(exit.parent);
                proof {
                    assert(matches@ =~= all.take(i + 1).filter(kind_is(kind)).map_values(
                        |x: PreviousNode| x.parent,
                    ));
                }
            } else {
                rest.push(PreviousNode { parent: exit.parent, edge: exit.edge });
                proof {
                    assert(rest@ =~= all.take(i + 1).filter(kind_is_not(kind)));
                }
            }
            i = i + 1;
        }
        proof {
            assert(all.take(i as int) =~= all);
        }
        self.unresolved_exits = rest;
        matches
    }

    /// Ends the life of a fragment whose transfers are all bound.
    fn assert_resolved(self)
        requires
            self.unresolved_exits@.len() == 0,
    {
    }

    /// Whether a transfer of `kind` is still pending.
    fn has_exit(&self, kind: Edge) -> (r: bool)
        ensures
            r == exists|i: int| 0 <= i < self.unresolved_exits@.len() && #[trigger] self.unresolved_exits@[i].edge == kind,
    {
        let mut i: usize = 0;
        while i < self.unresolved_exits.len()
            invariant
                0 <= i <= self.unresolved_exits@.len(),
                forall|j: int| 0 <= j < i ==> #[trigger] self.unresolved_exits@[j].edge != kind,
            decreases self.unresolved_exits@.len() - i,
        {
            if self.unresolved_exits[i].edge == kind {
                return true;
            }
            i = i + 1;
        }
        false
    }
}

/// Every node of `nodes` is reached from `root`.
pub open spec fn all_reachable(nodes: NodeMap, edges: EdgeMap, root: usize) -> bool {
    forall|k: usize| #[trigger] nodes.contains_key(k) ==> reachable(edges, root, k)
}

/// No edge of `edges` is a pending break or continue, nor a branch.
pub open spec fn all_settled(edges: EdgeMap) -> bool {
    forall|e: usize| #[trigger] edges.contains_key(e) ==> settled(edges[e].2)
}

/// Every node of `n0` is still there, holding the same block.
pub open spec fn keeps(n0: NodeMap, n1: NodeMap) -> bool {
    forall|k: usize| #[trigger] n0.contains_key(k) ==> n1.contains_key(k) && n1[k] == n0[k]
}

/// `n1` is `n0` with one more node, `r`, whose block holds no statement.
pub open spec fn adds_empty_node(n0: NodeMap, n1: NodeMap, r: usize) -> bool {
    &&& !n0.contains_key(r)
    &&& n1.dom() == n0.dom().insert(r)
    &&& keeps(n0, n1)
    &&& n1[r].statements@.len() == 0
}

/// `(n1, e1)` grows `(n0, e0)`: old nodes keep their blocks, old edges stay,
/// every new node is reached from `from`, and every new edge has a settled
/// kind and leaves `from` or a new node for a new node.
pub open spec fn extends(n0: NodeMap, e0: EdgeMap, n1: NodeMap, e1: EdgeMap, from: usize) -> bool {
    &&& keeps(n0, n1)
    &&& e0.submap_of(e1)
    &&& forall|k: usize| #[trigger] n1.contains_key(k) && !n0.contains_key(k) ==> reachable(e1, from, k)
    &&& forall|e: usize| #[trigger] e1.contains_key(e) && !e0.contains_key(e)
        ==> settled(e1[e].2) && (e1[e].0 == from || !n0.contains_key(e1[e].0)) && !n0.contains_key(e1[e].1)
}

proof fn lemma_submap_trans(a: EdgeMap, b: EdgeMap, c: EdgeMap)
    requires
        a.submap_of(b),
        b.submap_of(c),
    ensures
        a.submap_of(c),
{
    assert forall|k: usize| #[trigger] a.contains_key(k) implies c.contains_key(k) && c[k] == a[k] by {
        assert(a.dom().contains(k));
        assert(b.dom().contains(k));
        assert(b[k] == a[k]);
        assert(c.dom().contains(k));
        assert(c[k] == b[k]);
    }
}

proof fn lemma_extends_trans(
    n0: NodeMap,
    e0: EdgeMap,
    n1: NodeMap,
    e1: EdgeMap,
    n2: NodeMap,
    e2: EdgeMap,
    start: usize,
    mid: usize,
)
    requires
        extends(n0, e0, n1, e1, start),
        extends(n1, e1, n2, e2, mid),
        !n0.contains_key(start),
        n1.contains_key(mid),
        !n0.contains_key(mid),
    ensures
        extends(n0, e0, n2, e2, start),
{
    assert(keeps(n0, n2));
    lemma_submap_trans(e0, e1, e2);
    assert(reachable(e1, start, mid));
    lemma_reach_mono(e1, e2, start, mid);
    assert forall|k: usize| #[trigger] n2.contains_key(k) && !n0.contains_key(k)
        implies reachable(e2, start, k) by {
        if n1.contains_key(k) {
            lemma_reach_mono(e1, e2, start, k);
        } else {
            lemma_reach_trans(e2, start, mid, k);
        }
    }
    assert forall|e: usize| #[trigger] e2.contains_key(e) && !e0.contains_key(e)
        implies settled(e2[e].2) && (e2[e].0 == start || !n0.contains_key(e2[e].0)) && !n0.contains_key(e2[e].1) by {
        if e1.contains_key(e) {
            assert(e1[e] == e2[e]);
        } else {
            if n0.contains_key(e2[e].0) {
                assert(n1.contains_key(e2[e].0));
            }
            if n0.contains_key(e2[e].1) {
                assert(n1.contains_key(e2[e].1));
            }
        }
    }
}

/// Joining the entry node to the start of a body built after it leaves every
/// node reachable, and adds no successor to the body's end.
proof fn lemma_entry_edge(
    n0: NodeMap,
    e0: EdgeMap,
    n1: NodeMap,
    e1: EdgeMap,
    e2: EdgeMap,
    entry: usize,
    start: usize,
    end: usize,
    e: usize,
)
    requires
        extends(n0, e0, n1, e1, start),
        n0.dom() == set![entry],
        e0.dom() == Set::<usize>::empty(),
        n1.contains_key(start),
        !n0.contains_key(start),
        !n0.contains_key(end),
        !e1.contains_key(e),
        e2 == e1.insert(e, (entry, start, Edge::Jump)),
    ensures
        all_reachable(n1, e2, entry),
        all_settled(e2),
        has_successor(e2, end) == has_successor(e1, end),
{
    lemma_reach_refl(e2, entry);
    lemma_reach_edge(e2, entry, e);
    assert forall|k: usize| #[trigger] n1.contains_key(k) implies reachable(e2, entry, k) by {
        if k != entry {
            lemma_reach_mono(e1, e2, start, k);
            lemma_reach_trans(e2, entry, start, k);
        }
    }
    assert forall|x: usize| #[trigger] e2.contains_key(x) implies settled(e2[x].2) by {
        if x != e {
            assert(!e0.dom().contains(x));
        }
    }
    if has_successor(e2, end) {
        let x = choose|x: usize| #[trigger] e2.contains_key(x) && e2[x].0 == end;
        assert(x != e);
    }
    if has_successor(e1, end) {
        let x = choose|x: usize| #[trigger] e1.contains_key(x) && e1[x].0 == end;
        assert(e2.contains_key(x));
    }
}

/// The entry node of a built graph is entered by no edge and left by one
/// jump, the only edge into the body's first block; the exit node is entered
/// by one jump only.
proof fn lemma_entry_exit_edges(
    n0: NodeMap,
    e0: EdgeMap,
    n1: NodeMap,
    e1: EdgeMap,
    e_joined: EdgeMap,
    ed: EdgeMap,
    entry: usize,
    start: usize,
    end: usize,
    e: usize,
    exit: Option<usize>,
)
    requires
        extends(n0, e0, n1, e1, start),
        model_wf(n1, e1),
        n0.dom() == set![entry],
        e0.dom() == Set::<usize>::empty(),
        n1.contains_key(start),
        !n0.contains_key(start),
        !n0.contains_key(end),
        forall|g: usize| #[trigger] e1.contains_key(g) ==> e1[g].1 != start,
        !e1.contains_key(e),
        e_joined == e1.insert(e, (entry, start, Edge::Jump)),
        exit is None ==> ed == e_joined,
        exit matches Some(x) ==> !n1.contains_key(x) && exists|f: usize| !e_joined.contains_key(f)
            && ed == e_joined.insert(f, (end, x, Edge::Jump)),
    ensures
        forall|g: usize| #[trigger] ed.contains_key(g) ==> ed[g].1 != entry,
        sole_exit(ed, entry, e),
        ed[e] == (entry, start, Edge::Jump),
        forall|g: usize| #[trigger] ed.contains_key(g) && ed[g].1 == start ==> g == e,
        exit matches Some(x) ==> exists|f: usize| {
            &&& ed.contains_key(f)
            &&& ed[f] == (end, x, Edge::Jump)
            &&& forall|g: usize| #[trigger] ed.contains_key(g) && ed[g].1 == x ==> g == f
        },
{
    assert forall|g: usize| #[trigger] e_joined.contains_key(g) implies e_joined[g].1 != entry
        && (e_joined[g].0 == entry ==> g == e) && (e_joined[g].1 == start ==> g == e) by {
        if g != e {
            assert(e1.contains_key(g) && !e0.contains_key(g));
            assert(e_joined[g] == e1[g]);
        }
    }
    if let Some(x) = exit {
        let f = choose|f: usize| !e_joined.contains_key(f) && ed == e_joined.insert(f, (end, x, Edge::Jump));
        assert(x != entry && x != start) by {
            assert(n0.contains_key(entry));
            assert(n1.contains_key(entry));
        }
        assert forall|g: usize| #[trigger] ed.contains_key(g) && ed[g].1 == x implies g == f by {
            if g != f {
                assert(e_joined.contains_key(g));
                if g != e {
                    assert(n1.contains_key(e1[g].1));
                }
            }
        }
        assert(ed.contains_key(f) && ed[f].1 == x);
    }
    assert forall|g: usize| #[trigger] ed.contains_key(g) implies ed[g].1 != entry
        && (ed[g].0 == entry ==> g == e) && (ed[g].1 == start ==> g == e) by {
        assert(n0.contains_key(entry));
        assert(n1.contains_key(entry));
        if exit is None {
            assert(e_joined.contains_key(g));
        } else {
            let x = exit->Some_0;
            let f = choose|f: usize| !e_joined.contains_key(f) && ed == e_joined.insert(f, (end, x, Edge::Jump));
            if g == f {
                assert(ed[g] == (end, x, Edge::Jump));
                assert(x != entry && x != start && end != entry);
            } else {
                assert(e_joined.contains_key(g) && ed[g] == e_joined[g]);
            }
        }
    }
}

/// The entry and exit edges of a built graph are jumps into nodes that no
/// await edge enters: the await edges of the body stay as they were.
proof fn lemma_wired_top(
    n0: NodeMap,
    e0: EdgeMap,
    n1: NodeMap,
    e1: EdgeMap,
    e_joined: EdgeMap,
    ed: EdgeMap,
    entry: usize,
    start: usize,
    end: usize,
    e: usize,
    exit: Option<usize>,
    w: Set<usize>,
)
    requires
        awaits_wired(n0, e0, n1, e1, w),
        extends(n0, e0, n1, e1, start),
        model_wf(n1, e1),
        n0.dom() == set![entry],
        n0[entry].statements@.len() == 0,
        e0.dom() == Set::<usize>::empty(),
        forall|g: usize| #[trigger] e1.contains_key(g) ==> e1[g].1 != start,
        !e1.contains_key(e),
        e_joined == e1.insert(e, (entry, start, Edge::Jump)),
        exit is None ==> ed == e_joined,
        exit matches Some(x) ==> !n1.contains_key(x) && exists|f: usize| !e_joined.contains_key(f)
            && ed == e_joined.insert(f, (end, x, Edge::Jump)),
    ensures
        awaits_wired(NodeMap::empty(), EdgeMap::empty(), n1, ed, w),
{
    assert(EdgeMap::empty().submap_of(e0));
    assert(e1.submap_of(e_joined));
    assert(e_joined.submap_of(ed)) by {
        if let Some(x) = exit {
            let f = choose|f: usize| !e_joined.contains_key(f) && ed == e_joined.insert(f, (end, x, Edge::Jump));
        }
    }
    lemma_submap_trans(e1, e_joined, ed);
    assert forall|k: usize| #[trigger] is_new(NodeMap::empty(), n0, k) implies n0[k].statements@.len() == 0 by {
        assert(n0.dom().contains(k));
    }
    assert forall|f: usize| #[trigger] ed.contains_key(f) && !e1.contains_key(f)
        implies ed[f].2 != Edge::Await && (ed[f].1 == start || !n1.contains_key(ed[f].1)) by {
        if f == e {
            assert(e_joined.contains_key(e) && ed[e] == e_joined[e]);
        } else if exit is None {
            assert(e_joined.contains_key(f));
        } else {
            let x = exit->Some_0;
            let g = choose|g: usize| !e_joined.contains_key(g) && ed == e_joined.insert(g, (end, x, Edge::Jump));
            if f != g {
                assert(e_joined.contains_key(f));
            }
        }
    }
    assert forall|f: usize, g: usize| #[trigger] ed.contains_key(f) && !e1.contains_key(f)
        && #[trigger] e1.contains_key(g) && !e0.contains_key(g) && e1[g].2 == Edge::Await
        implies ed[f].1 != e1[g].1 by {
        assert(n1.contains_key(e1[g].1));
    }
    lemma_wired_widen(NodeMap::empty(), EdgeMap::empty(), n0, e0, n1, e1, ed, w);
}

/// Builds the control-flow graph of one function or interrupt handler.
pub struct Builder<'a> {
    result: ControlFlowGraph,
    block_counter: u32,
    name: &'a str,
}

impl<'a> Builder<'a> {
    pub closed spec fn nodes(&self) -> NodeMap {
        graph_nodes(self.result.graph)
    }

    pub closed spec fn edges(&self) -> EdgeMap {
        graph_edges(self.result.graph)
    }

    pub closed spec fn name(&self) -> Seq<char> {
        self.name@
    }

    /// The entry node of the graph being built.
    pub closed spec fn entry(&self) -> usize {
        self.result.entry_node
    }

    closed spec fn inv(&self) -> bool {
        &&& model_wf(self.nodes(), self.edges())
        &&& self.nodes().contains_key(self.result.entry_node)
        &&& self.result.exit_node is None
    }

    /// As `new` leaves it: the entry node alone, and no block named yet.
    pub closed spec fn is_fresh(&self) -> bool {
        &&& self.inv()
        &&& self.nodes().dom() == set![self.result.entry_node]
        &&& self.nodes()[self.result.entry_node].statements@.len() == 0
        &&& self.nodes()[self.result.entry_node].debug_name@ == "function entry point"@
        &&& self.edges().dom() == Set::<usize>::empty()
        &&& self.block_counter == 0
    }

    pub fn new(name: &'a str) -> (r: Self)
        ensures
            r.is_fresh(),
            r.name() == name@,
            r.nodes().dom() == set![r.entry()],
            r.nodes()[r.entry()].statements@.len() == 0,
            r.nodes()[r.entry()].debug_name@ == "function entry point"@,
            r.edges().dom() == Set::<usize>::empty(),
    {
        proof {
            reveal_strlit("function entry point");
        }
        let mut graph = new_graph();
        let entry_node = add_node(&mut graph, Block::with_name(String::from_str("function entry point")));
        let r = Builder { result: ControlFlowGraph { entry_node, exit_node: None, graph }, block_counter: 0, name };
        proof {
            assert(r.nodes().dom() =~= set![entry_node]);
            assert(r.edges().dom() =~= Set::<usize>::empty());
        }
        r
    }

    /// The builder's name followed by the next block number.
    fn make_block_name(&mut self) -> (r: String)
        requires
            old(self).block_counter < u32::MAX,
        ensures
            r@ == old(self).name@ + decimal(old(self).block_counter as nat),
            final(self).block_counter == old(self).block_counter + 1,
            final(self).result == old(self).result,
            final(self).name == old(self).name,
    {
        let mut result = String::from_str(self.name);
        push_decimal(&mut result, self.block_counter as u64);
        self.block_counter = self.block_counter + 1;
        result
    }

    fn make_block(&mut self) -> (r: usize)
        requires
            old(self).inv(),
            old(self).nodes().len() + 1 < u32::MAX,
            old(self).block_counter < u32::MAX,
        ensures
            final(self).inv(),
            adds_empty_node(old(self).nodes(), final(self).nodes(), r),
            final(self).nodes()[r].debug_name@ == old(self).name@ + decimal(old(self).block_counter as nat),
            final(self).nodes().len() == old(self).nodes().len() + 1,
            final(self).edges() == old(self).edges(),
            final(self).block_counter == old(self).block_counter + 1,
            final(self).name == old(self).name,
            final(self).result.entry_node == old(self).result.entry_node,
    {
        let name = self.make_block_name();
        add_node(&mut self.result.graph, Block::with_name(name))
    }

    fn make_block_with_description(&mut self, description: &str) -> (r: usize)
        requires
            old(self).inv(),
            old(self).nodes().len() + 1 < u32::MAX,
            old(self).block_counter < u32::MAX,
        ensures
            final(self).inv(),
            adds_empty_node(old(self).nodes(), final(self).nodes(), r),
            final(self).nodes()[r].debug_name@ == old(self).name@ + decimal(old(self).block_counter as nat)
                + " ("@ + description@ + ")"@,
            final(self).nodes().len() == old(self).nodes().len() + 1,
            final(self).edges() == old(self).edges(),
            final(self).block_counter == old(self).block_counter + 1,
            final(self).name == old(self).name,
            final(self).result.entry_node == old(self).result.entry_node,
    {
        let mut name = self.make_block_name();
        name.append(" (");
        name.append(description);
        name.append(")");
        proof {
            reveal_strlit(" (");
            reveal_strlit(")");
        }
        add_node(&mut self.result.graph, Block::with_name(name))
    }

    /// Appends statement handle `h` to the block of node `block`.
    fn append_statement(&mut self, block: usize, h: usize)
        requires
            old(self).inv(),
            old(self).nodes().contains_key(block),
        ensures
            final(self).inv(),
            final(self).nodes().dom() == old(self).nodes().dom(),
            forall|k: usize| k != block && #[trigger] old(self).nodes().contains_key(k)
                ==> final(self).nodes()[k] == old(self).nodes()[k],
            final(self).nodes()[block].statements@ == old(self).nodes()[block].statements@.push(h),
            final(self).edges() == old(self).edges(),
            final(self).block_counter == old(self).block_counter,
            final(self).name == old(self).name,
            final(self).result.entry_node == old(self).result.entry_node,
    {
        let mut b = replace_block(&mut self.result.graph, block, Block::with_name(String::new()));
        b.statements.push(h);
        let _ = replace_block(&mut self.result.graph, block, b);
        proof {
            assert(self.nodes().dom() =~= old(self).nodes().dom());
        }
    }

    /// Binds the pending transfers of `kind` to `target`: each becomes a jump
    /// from its origin.
    fn resolve_exits(&mut self, build_result: &mut BuildResult, kind: Edge, target: usize)
        requires
            old(self).inv(),
            old(self).nodes().contains_key(target),
            forall|i: int| 0 <= i < old(build_result).unresolved_exits@.len()
                ==> old(self).nodes().contains_key(#[trigger] old(build_result).unresolved_exits@[i].parent),
            old(self).edges().len() + old(build_result).unresolved_exits@.len() < u32::MAX,
        ensures
            final(self).inv(),
            final(self).nodes() == old(self).nodes(),
            final(self).name == old(self).name,
            final(self).block_counter == old(self).block_counter,
            final(self).result.entry_node == old(self).result.entry_node,
            final(build_result).start_block == old(build_result).start_block,
            final(build_result).end_block == old(build_result).end_block,
            final(build_result).unresolved_exits@ == old(build_result).unresolved_exits@.filter(kind_is_not(kind)),
            old(self).edges().submap_of(final(self).edges()),
            forall|e: usize| #[trigger] final(self).edges().contains_key(e) && !old(self).edges().contains_key(e)
                ==> final(self).edges()[e].1 == target && final(self).edges()[e].2 == Edge::Jump
                    && exists|i: int| 0 <= i < old(build_result).unresolved_exits@.len()
                        && old(build_result).unresolved_exits@[i].edge == kind
                        && #[trigger] old(build_result).unresolved_exits@[i].parent == final(self).edges()[e].0,
            final(self).edges().len() == old(self).edges().len()
                + old(build_result).unresolved_exits@.filter(kind_is(kind)).len(),
            forall|i: int| 0 <= i < old(build_result).unresolved_exits@.len()
                && #[trigger] old(build_result).unresolved_exits@[i].edge == kind
                ==> exists|e: usize| !old(self).edges().contains_key(e) && #[trigger] final(self).edges().contains_key(e)
                    && final(self).edges()[e] == (old(build_result).unresolved_exits@[i].parent, target, Edge::Jump),
            old(build_result).unresolved_exits@.len() == 0 ==> final(self).edges() == old(self).edges(),
    {
        let ghost exits = build_result.unresolved_exits@;
        let ghost e0 = self.edges();
        let origins = build_result.resolve_exits(kind);
        proof {
            exits.lemma_filter_len(kind_is(kind));
            assert forall|i: int| 0 <= i < exits.filter(kind_is(kind)).len()
                implies exits.contains(#[trigger] exits.filter(kind_is(kind))[i]) && kind_is(kind)(exits.filter(kind_is(kind))[i]) by {
                lemma_filter_from(exits, kind_is(kind), i);
            }
            if exits.len() == 0 {
                reveal(Seq::filter);
                assert(exits.filter(kind_is(kind)).len() == 0);
            }
        }
        let mut j: usize = 0;
        while j < origins.len()
            invariant
                self.inv(),
                self.nodes() == old(self).nodes(),
                self.name == old(self).name,
                self.block_counter == old(self).block_counter,
                self.result.entry_node == old(self).result.entry_node,
                self.nodes().contains_key(target),
                e0 == old(self).edges(),
                exits == old(build_result).unresolved_exits@,
                origins@ == exits.filter(kind_is(kind)).map_values(|x: PreviousNode| x.parent),
                origins@.len() <= exits.len(),
                0 <= j <= origins@.len(),
                forall|i: int| 0 <= i < exits.len() ==> self.nodes().contains_key(#[trigger] exits[i].parent),
                forall|i: int| 0 <= i < exits.filter(kind_is(kind)).len()
                    ==> exits.contains(#[trigger] exits.filter(kind_is(kind))[i]) && kind_is(kind)(exits.filter(kind_is(kind))[i]),
                e0.submap_of(self.edges()),
                self.edges().len() == e0.len() + j,
                forall|k: int| 0 <= k < j ==> exists|e: usize| !e0.contains_key(e) && #[trigger] self.edges().contains_key(e)
                    && self.edges()[e] == (#[trigger] origins@[k], target, Edge::Jump),
                e0.len() + exits.len() < u32::MAX,
                forall|e: usize| #[trigger] self.edges().contains_key(e) && !e0.contains_key(e)
                    ==> self.edges()[e].1 == target && self.edges()[e].2 == Edge::Jump
                        && exists|i: int| 0 <= i < exits.len() && exits[i].edge == kind
                            && #[trigger] exits[i].parent == self.edges()[e].0,
            decreases origins@.len() - j,
        {
            let origin = origins[j];
            proof {
                let x = exits.filter(kind_is(kind))[j as int];
                assert(exits.contains(x));
                let i = choose|i: int| 0 <= i < exits.len() && exits[i] == x;
                assert(exits[i].parent == origin);
                assert(self.nodes().contains_key(origin));
            }
            let ghost before = self.edges();
            let e = add_edge(&mut self.result.graph, origin, target, Edge::Jump);
            proof {
                let x = exits.filter(kind_is(kind))[j as int];
                let i = choose|i: int| 0 <= i < exits.len() && exits[i] == x;
                assert(exits[i].edge == kind && exits[i].parent == self.edges()[e].0);
                assert forall|f: usize| #[trigger] self.edges().contains_key(f) && !e0.contains_key(f)
                    implies self.edges()[f].1 == target && self.edges()[f].2 == Edge::Jump
                        && exists|i: int| 0 <= i < exits.len() && exits[i].edge == kind
                            && #[trigger] exits[i].parent == self.edges()[f].0 by {
                    if f != e {
                        assert(before.contains_key(f));
                    } else {
                        assert(exits[i].parent == self.edges()[f].0);
                    }
                }
                assert forall|k: int| 0 <= k < j + 1 implies exists|f: usize| !e0.contains_key(f)
                    && #[trigger] self.edges().contains_key(f) && self.edges()[f] == (#[trigger] origins@[k], target, Edge::Jump) by {
                    if k < j {
                        let f = choose|f: usize| !e0.contains_key(f) && #[trigger] before.contains_key(f)
                            && before[f] == (origins@[k], target, Edge::Jump);
                        assert(self.edges().contains_key(f) && self.edges()[f] == before[f]);
                    } else {
                        assert(!before.contains_key(e));
                        assert(!e0.contains_key(e));
                        assert(origins@[k] == origin);
                        assert(self.edges().contains_key(e) && self.edges()[e] == (origins@[k], target, Edge::Jump));
                    }
                }
            }
            j = j + 1;
        }
        proof {
            if exits.len() == 0 {
                assert(self.edges() =~= e0);
            }
            assert forall|i: int| 0 <= i < exits.len() && #[trigger] exits[i].edge == kind
                implies exists|e: usize| !e0.contains_key(e) && #[trigger] self.edges().contains_key(e)
                    && self.edges()[e] == (exits[i].parent, target, Edge::Jump) by {
                assert(kind_is(kind)(exits[i]));
                exits.lemma_filter_contains(kind_is(kind), i);
                let k = choose|k: int| 0 <= k < exits.filter(kind_is(kind)).len() && exits.filter(kind_is(kind))[k] == exits[i];
                assert(origins@[k] == exits[i].parent);
            }
        }
    }

    /// Lowers `loop { nested }` that follows block `end`; returns the block
    /// after it and the next free handle.
    #[verifier::rlimit(100)]
    fn lower_loop(&mut self, nested: &Vec<Statement>, handle: usize, end: usize) -> (res: (usize, usize))
        requires
            old(self).inv(),
            old(self).nodes().contains_key(end),
            old(self).nodes().len() + 3 * (1 + seq_size(nested@)) < u32::MAX,
            old(self).edges().len() + 4 * (1 + seq_size(nested@)) < u32::MAX,
            old(self).block_counter + 3 * (1 + seq_size(nested@)) < u32::MAX,
            handle + 1 + seq_size(nested@) <= usize::MAX,
        ensures
            final(self).inv(),
            final(self).name == old(self).name,
            final(self).result.entry_node == old(self).result.entry_node,
            extends(old(self).nodes(), old(self).edges(), final(self).nodes(), final(self).edges(), end),
            final(self).nodes().contains_key(res.0),
            !old(self).nodes().contains_key(res.0),
            has_successor(final(self).edges(), res.0),
            final(self).nodes()[res.0].statements@.len() == 0,
            holds_segments(old(self).nodes(), final(self).nodes(), segments(nested@, (handle + 1) as nat),
                (handle + 1) as nat, (handle + 1 + seq_size(nested@)) as nat),
            awaits_wired(old(self).nodes(), old(self).edges(), final(self).nodes(), final(self).edges(),
                await_handles(nested@, (handle + 1) as nat)),
            forall|f: usize| #[trigger] final(self).edges().contains_key(f) && !old(self).edges().contains_key(f)
                && final(self).edges()[f].0 == end ==> final(self).edges()[f].2 == Edge::Jump,
            res.1 == handle + 1 + seq_size(nested@),
            final(self).nodes().len() == old(self).nodes().len() + 2 + fragment_nodes(nested@),
            final(self).edges().len() == old(self).edges().len() + 4 + fragment_edges(nested@),
            final(self).nodes().len() <= old(self).nodes().len() + 3 * (1 + seq_size(nested@)),
            final(self).edges().len() <= old(self).edges().len() + 4 * (1 + seq_size(nested@)),
            final(self).block_counter <= old(self).block_counter + 3 * (1 + seq_size(nested@)),
            final(self).block_counter == old(self).block_counter + 2 + fragment_nodes(nested@),
        decreases 1 + seq_size(nested@), 0int,
    {
        let ghost n0 = self.nodes();
        let ghost e0 = self.edges();
        let loop_begin = self.make_block_with_description("loop begin");
        let loop_repeat = self.make_block_with_description("loop repeat");
        assert(self.nodes().contains_key(loop_begin));
        assert(self.nodes().contains_key(end));
        assert(self.nodes().contains_key(loop_repeat));
        let e1 = add_edge(&mut self.result.graph, end, loop_begin, Edge::Jump);
        let e2 = add_edge(&mut self.result.graph, loop_repeat, loop_begin, Edge::Jump);
        let ghost n1 = self.nodes();
        let ghost e1_map = self.edges();
        assert(e1_map.contains_key(e1) && e1_map[e1] == (end, loop_begin, Edge::Jump));
        assert(e1_map.contains_key(e2) && e1_map[e2] == (loop_repeat, loop_begin, Edge::Jump));
        let (mut nested_result, next) = self.build_inner(nested.as_slice(), handle + 1);
        let ghost n2 = self.nodes();
        let ghost e2_map = self.edges();
        let e3 = add_edge(&mut self.result.graph, loop_begin, nested_result.start_block, Edge::Jump);
        self.resolve_exits(&mut nested_result, Edge::Continue, loop_begin);
        let mut loop_end = loop_repeat;
        if nested_result.has_exit(Edge::Break) {
            loop_end = self.make_block_with_description("loop end");
            self.resolve_exits(&mut nested_result, Edge::Break, loop_end);
        }
        let e4 = add_edge(&mut self.result.graph, nested_result.end_block, loop_repeat, Edge::Jump);
        nested_result.assert_resolved();
        proof {
            assert(e2_map.submap_of(self.edges()));
            let ed = self.edges();
            let nd = self.nodes();
            let ns = nested_result.start_block;
            lemma_submap_trans(e1_map, e2_map, ed);
            lemma_submap_trans(e0, e1_map, ed);
            assert(e2_map.contains_key(e1));
            assert(ed.contains_key(e1) && ed[e1] == (end, loop_begin, Edge::Jump));
            assert(ed.contains_key(e3) && ed[e3] == (loop_begin, ns, Edge::Jump));
            assert(ed.contains_key(e4) && ed[e4] == (nested_result.end_block, loop_repeat, Edge::Jump));
            lemma_reach_refl(ed, end);
            lemma_reach_edge(ed, end, e1);
            lemma_reach_edge(ed, end, e3);
            lemma_reach_mono(e2_map, ed, ns, nested_result.end_block);
            lemma_reach_trans(ed, end, ns, nested_result.end_block);
            lemma_reach_edge(ed, end, e4);
            assert(keeps(n0, nd));
            assert(e0.submap_of(ed));
            assert forall|k: usize| #[trigger] nd.contains_key(k) && !n0.contains_key(k)
                implies reachable(ed, end, k) by {
                if !n1.contains_key(k) {
                    lemma_reach_mono(e2_map, ed, ns, k);
                    lemma_reach_trans(ed, end, ns, k);
                }
            }
            assert forall|e: usize| #[trigger] ed.contains_key(e) && !e0.contains_key(e)
                implies settled(ed[e].2) && (ed[e].0 == end || !n0.contains_key(ed[e].0)) && !n0.contains_key(ed[e].1) by {
                if e2_map.contains_key(e) {
                    assert(e2_map[e] == ed[e]);
                    if e1_map.contains_key(e) {
                        assert(e == e1 || e == e2);
                    }
                } else {
                    assert(e == e3 || e == e4);
                }
            }
            assert(e2_map.contains_key(e2));
            assert(ed.contains_key(e2) && ed[e2].0 == loop_repeat);
            assert forall|k: usize| #[trigger] is_new(n0, n1, k) implies n1[k].statements@.len() == 0 by {
                assert(k == loop_begin || k == loop_repeat);
            }
            lemma_holds_widen(n0, n1, n2, segments(nested@, (handle + 1) as nat), (handle + 1) as nat,
                (handle + 1 + seq_size(nested@)) as nat);
            assert forall|f: usize| #[trigger] e1_map.contains_key(f) && !e0.contains_key(f) implies e1_map[f].2 != Edge::Await by {
                assert(f == e1 || f == e2);
            }
            assert forall|f: usize| #[trigger] ed.contains_key(f) && !e2_map.contains_key(f) implies ed[f].2 != Edge::Await by {
                assert(f == e3 || f == e4);
            }
            assert forall|f: usize, g: usize| #[trigger] ed.contains_key(f) && !e2_map.contains_key(f)
                && #[trigger] e2_map.contains_key(g) && !e1_map.contains_key(g) && e2_map[g].2 == Edge::Await
                implies ed[f].1 != e2_map[g].1 by {
                assert(f == e3 || f == e4);
                assert(!n1.contains_key(e2_map[g].1));
            }
            lemma_wired_widen(n0, e0, n1, e1_map, n2, e2_map, ed, await_handles(nested@, (handle + 1) as nat));
            assert forall|f: usize| #[trigger] ed.contains_key(f) && !e0.contains_key(f) && ed[f].0 == end
                implies ed[f].2 == Edge::Jump by {
                if e2_map.contains_key(f) {
                    if e1_map.contains_key(f) {
                        assert(f == e1 || f == e2);
                    } else {
                        assert(e2_map[f] == ed[f]);
                        assert(n1.contains_key(end));
                    }
                } else {
                    assert(f == e3 || f == e4);
                }
            }
        }
        (loop_end, next)
    }

    /// Closes block `end` with the await of handle `handle`, and opens the
    /// block where execution resumes.
    fn lower_await(&mut self, handle: usize, end: usize) -> (r: usize)
        requires
            old(self).inv(),
            old(self).nodes().contains_key(end),
            old(self).nodes().len() + 1 < u32::MAX,
            old(self).edges().len() < u32::MAX,
            old(self).block_counter < u32::MAX,
        ensures
            final(self).inv(),
            final(self).name == old(self).name,
            final(self).result.entry_node == old(self).result.entry_node,
            final(self).nodes()[end].statements@ == old(self).nodes()[end].statements@.push(handle),
            forall|k: usize| k != end && #[trigger] old(self).nodes().contains_key(k)
                ==> final(self).nodes()[k] == old(self).nodes()[k],
            extends(old(self).nodes().insert(end, final(self).nodes()[end]), old(self).edges(), final(self).nodes(), final(self).edges(), end),
            final(self).nodes().contains_key(r),
            !old(self).nodes().contains_key(r),
            !has_successor(final(self).edges(), r),
            final(self).nodes().dom() == old(self).nodes().dom().insert(r),
            final(self).nodes()[r].statements@.len() == 0,
            exists|f: usize| !old(self).edges().contains_key(f)
                && final(self).edges() == old(self).edges().insert(f, (end, r, Edge::Await)),
            final(self).nodes().len() == old(self).nodes().len() + 1,
            final(self).edges().len() == old(self).edges().len() + 1,
            final(self).block_counter == old(self).block_counter + 1,
    {
        let ghost e0 = self.edges();
        self.append_statement(end, handle);
        let ghost n_app = self.nodes();
        let next_block = self.make_block();
        assert(self.nodes().contains_key(next_block));
        let e = add_edge(&mut self.result.graph, end, next_block, Edge::Await);
        proof {
            let ed = self.edges();
            let nd = self.nodes();
            assert(n_app =~= old(self).nodes().insert(end, nd[end]));
            lemma_reach_refl(ed, end);
            lemma_reach_edge(ed, end, e);
            assert forall|x: usize| #[trigger] ed.contains_key(x) implies ed[x].0 != next_block by {
                if x != e {
                    assert(e0.contains_key(x));
                }
            }
            assert forall|k: usize| #[trigger] nd.contains_key(k) && !n_app.contains_key(k)
                implies reachable(ed, end, k) by {
                assert(k == next_block);
            }
        }
        next_block
    }

    fn build_inner(&mut self, statements: &[Statement], first: usize) -> (res: (BuildResult, usize))
        requires
            old(self).inv(),
            old(self).nodes().len() + 1 + 3 * seq_size(statements@) < u32::MAX,
            old(self).edges().len() + 4 * seq_size(statements@) < u32::MAX,
            old(self).block_counter + 1 + 3 * seq_size(statements@) < u32::MAX,
            first + seq_size(statements@) <= usize::MAX,
        ensures
            final(self).inv(),
            final(self).name == old(self).name,
            final(self).result.entry_node == old(self).result.entry_node,
            extends(old(self).nodes(), old(self).edges(), final(self).nodes(), final(self).edges(), res.0.start_block),
            final(self).nodes().contains_key(res.0.start_block),
            !old(self).nodes().contains_key(res.0.start_block),
            final(self).nodes().contains_key(res.0.end_block),
            !old(self).nodes().contains_key(res.0.end_block),
            has_successor(final(self).edges(), res.0.end_block) == !ends_open(statements@),
            res.0.unresolved_exits@.len() == 0,
            holds_segments(old(self).nodes(), final(self).nodes(), segments(statements@, first as nat), first as nat,
                (first + seq_size(statements@)) as nat),
            res.1 == first + seq_size(statements@),
            final(self).nodes().len() == old(self).nodes().len() + fragment_nodes(statements@),
            final(self).edges().len() == old(self).edges().len() + fragment_edges(statements@),
            final(self).nodes().len() <= old(self).nodes().len() + 1 + 3 * seq_size(statements@),
            final(self).edges().len() <= old(self).edges().len() + 4 * seq_size(statements@),
            final(self).block_counter <= old(self).block_counter + 1 + 3 * seq_size(statements@),
            final(self).block_counter == old(self).block_counter + fragment_nodes(statements@),
            forall|e: usize| #[trigger] final(self).edges().contains_key(e) ==> final(self).edges()[e].1 != res.0.start_block,
            awaits_wired(old(self).nodes(), old(self).edges(), final(self).nodes(), final(self).edges(),
                await_handles(statements@, first as nat)),
            final(self).nodes()[res.0.end_block].statements@ == open_segment(statements@, first as nat),
        decreases seq_size(statements@), 1int,
    {
        let ghost n0 = self.nodes();
        let ghost e0 = self.edges();
        let ghost c0 = self.block_counter as nat;
        let ghost total = seq_size(statements@);
        let first_block = self.make_block();
        let mut result = BuildResult {
            start_block: first_block,
            end_block: first_block,
            unresolved_exits: Vec::new(),
        };
        let mut handle: usize = first;
        let mut i: usize = 0;
        proof {
            lemma_reach_refl(self.edges(), first_block);
            assert(statements@.take(0) =~= Seq::<Statement>::empty());
            assert(fragment_nodes(statements@.take(0)) == 1);
            assert(fragment_edges(statements@.take(0)) == 0);
            assert forall|e: usize| #[trigger] self.edges().contains_key(e) implies self.edges()[e].0 != first_block by {
                assert(n0.contains_key(self.edges()[e].0));
            }
            assert(extends(n0, e0, self.nodes(), self.edges(), first_block));
            assert(self.nodes()[first_block].statements@ =~= Seq::<usize>::empty());
            assert(fragment_blocks(n0, self.nodes(), first_block, Seq::empty(), Set::empty(), first as nat, first as nat));
            assert(await_handles(statements@.take(0), first as nat) == Set::<usize>::empty());
            assert(awaits_wired(n0, e0, self.nodes(), self.edges(), Set::<usize>::empty()));
        }
        while i < statements.len()
            invariant
                self.inv(),
                self.name == old(self).name,
                self.result.entry_node == old(self).result.entry_node,
                n0 == old(self).nodes(),
                e0 == old(self).edges(),
                c0 == old(self).block_counter,
                total == seq_size(statements@),
                n0.len() + 1 + 3 * total < u32::MAX,
                e0.len() + 4 * total < u32::MAX,
                c0 + 1 + 3 * total < u32::MAX,
                first + total <= usize::MAX,
                0 <= i <= statements@.len(),
                handle == first + seq_size(statements@.take(i as int)),
                seq_size(statements@.take(i as int)) <= total,
                extends(n0, e0, self.nodes(), self.edges(), result.start_block),
                self.nodes().contains_key(result.start_block),
                !n0.contains_key(result.start_block),
                self.nodes().contains_key(result.end_block),
                !n0.contains_key(result.end_block),
                has_successor(self.edges(), result.end_block) == !ends_open(statements@.take(i as int)),
                fragment_blocks(n0, self.nodes(), result.end_block, open_segment(statements@.take(i as int), first as nat),
                    closed_segments(statements@.take(i as int), first as nat), first as nat, handle as nat),
                result.unresolved_exits@.len() == 0,
                self.nodes().len() == n0.len() + fragment_nodes(statements@.take(i as int)),
                self.edges().len() == e0.len() + fragment_edges(statements@.take(i as int)),
                self.nodes().len() <= n0.len() + 1 + 3 * seq_size(statements@.take(i as int)),
                self.edges().len() <= e0.len() + 4 * seq_size(statements@.take(i as int)),
                self.block_counter <= c0 + 1 + 3 * seq_size(statements@.take(i as int)),
                self.block_counter == c0 + fragment_nodes(statements@.take(i as int)),
                model_wf(n0, e0),
                awaits_wired(n0, e0, self.nodes(), self.edges(), await_handles(statements@.take(i as int), first as nat)),
                forall|e: usize| #[trigger] self.edges().contains_key(e) ==> self.edges()[e].1 != result.start_block,
            decreases statements@.len() - i,
        {
            proof {
                lemma_seq_size_take(statements@, i as int);
                lemma_seq_size_prefix(statements@, i + 1);
                let t = statements@.take(i + 1);
                assert(t.drop_last() =~= statements@.take(i as int));
                assert(t.last() == statements@[i as int]);
            }
            let ghost n_before = self.nodes();
            let ghost e_before = self.edges();
            let ghost end_before = result.end_block;
            let ghost handle_before = handle;
            proof {
                lemma_open_not_await(statements@.take(i as int), first as nat);
                lemma_await_range(statements@.take(i as int), first as nat);
            }
            match &statements[i] {
                Statement::Loop(nested) => {
                    let (after, next) = self.lower_loop(nested, handle, result.end_block);
                    result.end_block = after;
                    handle = next;
                    proof {
                        lemma_extends_trans(n0, e0, n_before, e_before, self.nodes(), self.edges(), result.start_block, end_before);
                        lemma_fragment_loop(n0, n_before, self.nodes(), end_before, after,
                            open_segment(statements@.take(i as int), first as nat),
                            closed_segments(statements@.take(i as int), first as nat),
                            segments(nested@, (handle_before + 1) as nat), first as nat, handle_before as nat, handle as nat);
                        lemma_await_range(nested@, (handle_before + 1) as nat);
                        let w = await_handles(statements@.take(i as int), first as nat);
                        let wn = await_handles(nested@, (handle_before + 1) as nat);
                        lemma_wired_loop(n0, e0, n_before, e_before, self.nodes(), self.edges(), end_before, w, wn,
                            handle_before as nat);
                        assert(await_handles(statements@.take(i + 1), first as nat) == w.union(wn));
                    }
                },
                Statement::Await(_) => {
                    let after = self.lower_await(handle, result.end_block);
                    result.end_block = after;
                    handle = handle + 1;
                    proof {
                        let n_app = n_before.insert(end_before, self.nodes()[end_before]);
                        assert(keeps(n0, n_app));
                        assert(extends(n0, e0, n_app, e_before, result.start_block));
                        lemma_extends_trans(n0, e0, n_app, e_before, self.nodes(), self.edges(), result.start_block, end_before);
                        let n1 = self.nodes().remove(after);
                        assert(n1.dom() =~= n_before.dom());
                        lemma_fragment_plain(n0, n_before, n1, end_before,
                            open_segment(statements@.take(i as int), first as nat),
                            closed_segments(statements@.take(i as int), first as nat), first as nat, handle_before as nat);
                        assert(self.nodes().dom() =~= n1.dom().insert(after));
                        lemma_fragment_close(n0, n1, self.nodes(), end_before, after,
                            open_segment(statements@.take(i as int), first as nat).push(handle_before),
                            closed_segments(statements@.take(i as int), first as nat), first as nat, handle as nat);
                        let w = await_handles(statements@.take(i as int), first as nat);
                        let f0 = choose|f: usize| !e_before.contains_key(f)
                            && self.edges() == e_before.insert(f, (end_before, after, Edge::Await));
                        lemma_wired_await(n0, e0, n_before, e_before, self.nodes(), self.edges(), end_before, after, f0, w,
                            handle_before);
                        assert(await_handles(statements@.take(i + 1), first as nat) == w.insert(handle_before));
                    }
                },
                _ => {
                    self.append_statement(result.end_block, handle);
                    handle = handle + 1;
                    proof {
                        assert(keeps(n0, self.nodes()));
                        assert(ends_open(statements@.take(i + 1)) == ends_open(statements@.take(i as int)));
                        lemma_fragment_plain(n0, n_before, self.nodes(), end_before,
                            open_segment(statements@.take(i as int), first as nat),
                            closed_segments(statements@.take(i as int), first as nat), first as nat, handle_before as nat);
                        let w = await_handles(statements@.take(i as int), first as nat);
                        lemma_wired_plain(n0, e0, n_before, e_before, self.nodes(), end_before, w, handle_before);
                        assert(await_handles(statements@.take(i + 1), first as nat) == w);
                    }
                },
            }
            i = i + 1;
        }
        proof {
            assert(statements@.take(i as int) =~= statements@);
            lemma_fragment_done(n0, self.nodes(), result.end_block, open_segment(statements@, first as nat),
                closed_segments(statements@, first as nat), first as nat, handle as nat);
        }
        (result, handle)
    }

    /// Attaches the exit node after `end` when no edge leaves `end`.
    fn close_body(&mut self, end: usize) -> (exit: Option<usize>)
        requires
            old(self).inv(),
            old(self).nodes().contains_key(end),
            old(self).nodes().len() < u32::MAX,
            old(self).edges().len() < u32::MAX,
            all_reachable(old(self).nodes(), old(self).edges(), old(self).result.entry_node),
            all_settled(old(self).edges()),
        ensures
            final(self).inv(),
            final(self).result.entry_node == old(self).result.entry_node,
            keeps(old(self).nodes(), final(self).nodes()),
            all_reachable(final(self).nodes(), final(self).edges(), final(self).result.entry_node),
            all_settled(final(self).edges()),
            final(self).edges().len() <= old(self).edges().len() + 1,
            exit is Some <==> !has_successor(old(self).edges(), end),
            exit is None ==> final(self).nodes() == old(self).nodes(),
            exit is None ==> final(self).edges() == old(self).edges(),
            old(self).edges().submap_of(final(self).edges()),
            exit is Some ==> final(self).nodes().len() == old(self).nodes().len() + 1,
            exit is Some ==> final(self).edges().len() == old(self).edges().len() + 1,
            exit matches Some(x) ==> {
                &&& final(self).nodes().dom() == old(self).nodes().dom().insert(x)
                &&& final(self).nodes()[x].debug_name@ == "function exit point"@
                &&& exists|f: usize| !old(self).edges().contains_key(f)
                    && final(self).edges() == old(self).edges().insert(f, (end, x, Edge::Jump))
                &&& final(self).nodes().contains_key(x)
                &&& !old(self).nodes().contains_key(x)
                &&& final(self).nodes()[x].statements@.len() == 0
                &&& !has_successor(final(self).edges(), x)
            },
    {
        let ghost e0 = self.edges();
        let ghost entry = self.result.entry_node;
        let outgoing = edges_at(&self.result.graph, end, true);
        if outgoing.len() == 0 {
            proof {
                if has_successor(e0, end) {
                    let x = choose|x: usize| #[trigger] e0.contains_key(x) && e0[x].0 == end;
                    assert(touches(e0[x], end, true));
                }
            }
            let exit_point = add_node(&mut self.result.graph, Block::with_name(String::from_str("function exit point")));
            assert(self.nodes().contains_key(exit_point));
            assert(self.nodes().contains_key(end));
            let x = add_edge(&mut self.result.graph, end, exit_point, Edge::Jump);
            proof {
                reveal_strlit("function exit point");
                let ed = self.edges();
                let nd = self.nodes();
                assert(reachable(e0, entry, end));
                lemma_reach_mono(e0, ed, entry, end);
                lemma_reach_edge(ed, entry, x);
                assert forall|k: usize| #[trigger] nd.contains_key(k) implies reachable(ed, entry, k) by {
                    if k != exit_point {
                        lemma_reach_mono(e0, ed, entry, k);
                    }
                }
                assert forall|y: usize| #[trigger] ed.contains_key(y) implies ed[y].0 != exit_point by {
                    if y != x {
                        assert(e0.contains_key(y));
                    }
                }
            }
            Some(exit_point)
        } else {
            proof {
                assert(touches(e0[outgoing@[0].0], end, true));
            }
            None
        }
    }

    /// Lowers a function or handler body. Statement handles are pre-order
    /// positions in `statements`, nested loop bodies included.
    #[verifier::rlimit(100)]
    pub fn build(self, statements: &[Statement]) -> (r: ControlFlowGraph)
        requires
            self.is_fresh(),
            seq_size(statements@) < 1_000_000_000,
        ensures
            r.wf(),
            r.nodes().contains_key(r.entry_node),
            r.nodes()[r.entry_node].statements@.len() == 0,
            r.nodes()[r.entry_node].debug_name@ == "function entry point"@,
            all_reachable(r.nodes(), r.edges(), r.entry_node),
            has_successor(r.edges(), r.entry_node),
            all_settled(r.edges()),
            holds_segments(NodeMap::empty(), r.nodes(), segments(statements@, 0), 0, seq_size(statements@)),
            awaits_wired(NodeMap::empty(), EdgeMap::empty(), r.nodes(), r.edges(), await_handles(statements@, 0)),
            r.nodes().len() == 1 + fragment_nodes(statements@) + (if r.exit_node is Some { 1int } else { 0 }),
            r.edges().len() == 1 + fragment_edges(statements@) + (if r.exit_node is Some { 1int } else { 0 }),
            r.exit_node is Some <==> ends_open(statements@),
            forall|e: usize| #[trigger] r.edges().contains_key(e) ==> r.edges()[e].1 != r.entry_node,
            exists|f: usize| {
                &&& sole_exit(r.edges(), r.entry_node, f)
                &&& r.edges()[f].2 == Edge::Jump
                &&& forall|g: usize| #[trigger] r.edges().contains_key(g) && r.edges()[g].1 == r.edges()[f].1 ==> g == f
            },
            r.exit_node matches Some(x) ==> {
                &&& r.nodes()[x].debug_name@ == "function exit point"@
                &&& exists|f: usize| {
                    &&& r.edges().contains_key(f)
                    &&& r.edges()[f].1 == x
                    &&& r.edges()[f].2 == Edge::Jump
                    &&& r.nodes()[r.edges()[f].0].statements@ == open_segment(statements@, 0)
                    &&& forall|g: usize| #[trigger] r.edges().contains_key(g) && r.edges()[g].1 == x ==> g == f
                }
                &&& r.nodes().contains_key(x)
                &&& x != r.entry_node
                &&& r.nodes()[x].statements@.len() == 0
                &&& !has_successor(r.edges(), x)
            },
    {
        let mut builder = self;
        let ghost n0 = builder.nodes();
        let ghost e0 = builder.edges();
        let entry = builder.result.entry_node;
        let (build_result, _) = builder.build_inner(statements, 0);
        let ghost n1 = builder.nodes();
        let ghost e1 = builder.edges();
        let start = build_result.start_block;
        let end = build_result.end_block;
        assert(builder.nodes().contains_key(start));
        assert(builder.nodes().contains_key(entry));
        let e = add_edge(&mut builder.result.graph, entry, start, Edge::Jump);
        proof {
            lemma_entry_edge(n0, e0, n1, e1, builder.edges(), entry, start, end, e);
        }
        assert(builder.edges().len() <= 4 * seq_size(statements@) + 1);
        proof {
            assert forall|k: usize| #[trigger] is_new(NodeMap::empty(), n0, k) implies n0[k].statements@.len() == 0 by {
                assert(n0.dom().contains(k));
            }
            lemma_holds_widen(NodeMap::empty(), n0, n1, segments(statements@, 0), 0, seq_size(statements@));
        }
        let ghost e_joined = builder.edges();
        let exit = builder.close_body(end);
        proof {
            assert(e_joined.contains_key(e) && e_joined[e].0 == entry);
            assert(e_joined.dom().contains(e));
            assert(builder.edges().dom().contains(e));
            assert(builder.edges()[e] == e_joined[e]);
            assert(builder.edges().contains_key(e) && builder.edges()[e].0 == entry);
            if let Some(x) = exit {
                lemma_holds_add_empty(NodeMap::empty(), n1, builder.nodes(), x, segments(statements@, 0), 0,
                    seq_size(statements@));
            }
            lemma_entry_exit_edges(n0, e0, n1, e1, e_joined, builder.edges(), entry, start, end, e, exit);
            lemma_wired_top(n0, e0, n1, e1, e_joined, builder.edges(), entry, start, end, e, exit,
                await_handles(statements@, 0));
            if let Some(x) = exit {
                let f = choose|f: usize| {
                    &&& builder.edges().contains_key(f)
                    &&& builder.edges()[f] == (end, x, Edge::Jump)
                    &&& forall|g: usize| #[trigger] builder.edges().contains_key(g) && builder.edges()[g].1 == x ==> g == f
                };
                assert(n1.contains_key(end));
                assert(builder.nodes()[end] == n1[end]);
            }
        }
        builder.result.exit_node = exit;
        builder.result
    }
}

} // verus!
