//! Graph model: blocks, edge kinds, and the petgraph store behind them.
use petgraph::stable_graph::{EdgeIndex, NodeIndex, StableGraph};
use petgraph::visit::EdgeRef;
use petgraph::Direction;
use crate::ast::{seq_size, stmt_at, statement_at, Statement};
use crate::format::{lemma_stmt_at_depth, stmt_text, stmts_depth, FormatAst};
use vstd::prelude::*;

verus! {

/// A basic block: statements that run in sequence with no internal transfer.
/// Statements are named by their handle (their pre-order position in the body).
pub struct Block {
    pub debug_name: String,
    pub statements: Vec<usize>,
}

/// The text of the statement with handle `h`, one level deep; nothing when
/// no statement has that handle.
pub open spec fn handle_text(body: Seq<Statement>, h: usize) -> Seq<char> {
    match stmt_at(body, h as nat) {
        Some(st) => stmt_text(st, 1),
        None => Seq::empty(),
    }
}

/// The statements of the handles, separated by line breaks.
pub open spec fn handles_text(body: Seq<Statement>, handles: Seq<usize>) -> Seq<char>
    decreases handles.len(),
{
    if handles.len() == 0 {
        Seq::empty()
    } else if handles.len() == 1 {
        handle_text(body, handles[0])
    } else {
        handles_text(body, handles.drop_last()) + "\n"@ + handle_text(body, handles.last())
    }
}

/// A block's label: its name, then its statements under a colon.
pub open spec fn block_text(name: Seq<char>, handles: Seq<usize>, body: Seq<Statement>) -> Seq<char> {
    if handles.len() == 0 {
        name
    } else {
        name + ":\n"@ + handles_text(body, handles)
    }
}

impl Block {
    pub fn with_name(debug_name: String) -> (r: Block)
        ensures
            r.debug_name@ == debug_name@,
            r.statements@ == Seq::<usize>::empty(),
    {
        Block { debug_name, statements: Vec::new() }
    }

    /// The block as diagnostics show it, with its statements taken from the
    /// body it was built from.
    pub fn describe(&self, body: &[Statement]) -> (r: String)
        requires
            seq_size(body@) <= usize::MAX,
            stmts_depth(body@) < u32::MAX,
        ensures
            r@ == block_text(self.debug_name@, self.statements@, body@),
    {
        let mut out = self.debug_name.clone();
        proof {
            reveal_strlit(":\n");
            reveal_strlit("\n");
        }
        if self.statements.len() > 0 {
            out.append(":\n");
        }
        let ghost head = out@;
        let mut i: usize = 0;
        proof {
            assert(self.statements@.take(0) =~= Seq::<usize>::empty());
        }
        while i < self.statements.len()
            invariant
                0 <= i <= self.statements@.len(),
                seq_size(body@) <= usize::MAX,
                stmts_depth(body@) < u32::MAX,
                out@ == head + handles_text(body@, self.statements@.take(i as int)),
            decreases self.statements@.len() - i,
        {
            proof {
                assert(self.statements@.take(i + 1).drop_last() =~= self.statements@.take(i as int));
            }
            if i > 0 {
                out.append("\n");
            }
            let h = self.statements[i];
            match statement_at(body, h) {
                Some(st) => {
                    proof {
                        lemma_stmt_at_depth(body@, h as nat);
                    }
                    let mut f = FormatAst::with_indent(1);
                    f.accept_statement(st);
                    out.append(f.output().as_str());
                },
                None => {},
            }
            proof {
                if i == 0 {
                    assert(self.statements@.take(1) =~= seq![self.statements@[0]]);
                }
                assert(out@ =~= head + handles_text(body@, self.statements@.take(i + 1)));
            }
            i = i + 1;
        }
        proof {
            assert(self.statements@.take(i as int) =~= self.statements@);
        }
        out
    }
}

/// Why control moves along an edge.
#[derive(Clone, Copy, Debug, PartialEq, Eq, Structural)]
pub enum Edge {
    Jump,
    Await,
    IfTrue,
    IfFalse,
    Break,
    Continue,
}

pub type GraphType = StableGraph<Block, Edge>;

/// Nodes by index.
pub type NodeMap = Map<usize, Block>;

/// Edges by index, as (source, target, kind).
pub type EdgeMap = Map<usize, (usize, usize, Edge)>;

#[verifier::external_type_specification]
#[verifier::external_body]
#[verifier::reject_recursive_types(N)]
#[verifier::reject_recursive_types(E)]
#[verifier::reject_recursive_types(Ty)]
#[verifier::reject_recursive_types(Ix)]
pub struct ExStableGraph<N, E, Ty, Ix>(StableGraph<N, E, Ty, Ix>);

#[verifier::external_type_specification]
#[verifier::external_body]
pub struct ExDirected(petgraph::Directed);

/// The live nodes of the graph, by index, with their blocks.
pub uninterp spec fn graph_nodes(g: StableGraph<Block, Edge>) -> NodeMap;

/// The live edges of the graph, by index, as (source, target, kind).
pub uninterp spec fn graph_edges(g: StableGraph<Block, Edge>) -> EdgeMap;

/// Node and edge sets are finite, node indices fit the `u32` index type, and
/// every edge joins two live nodes.
pub open spec fn model_wf(nodes: NodeMap, edges: EdgeMap) -> bool {
    &&& nodes.dom().finite()
    &&& edges.dom().finite()
    &&& forall|k: usize| #[trigger] nodes.contains_key(k) ==> k < u32::MAX
    &&& forall|e: usize| #[trigger] edges.contains_key(e)
        ==> nodes.contains_key(edges[e].0) && nodes.contains_key(edges[e].1)
}

/// The edges of `edges` that do not touch node `a`.
pub open spec fn edges_without(edges: EdgeMap, a: usize) -> EdgeMap {
    edges.restrict(edges.dom().filter(|e: usize| edges[e].0 != a && edges[e].1 != a))
}

/// Relies on `StableGraph::new`: a graph with no nodes and no edges.
#[verifier::external_body]
pub(crate) fn new_graph() -> (r: GraphType)
    ensures
        graph_nodes(r) == NodeMap::empty(),
        graph_edges(r) == EdgeMap::empty(),
{
    StableGraph::new()
}

/// Relies on `StableGraph::add_node`: the block is stored under an index that
/// was vacant, below the `u32` index maximum; it panics only when no slot is
/// vacant and `u32::MAX` nodes are in use.
#[verifier::external_body]
pub(crate) fn add_node(g: &mut GraphType, b: Block) -> (r: usize)
    requires
        graph_nodes(*old(g)).len() < u32::MAX,
    ensures
        !graph_nodes(*old(g)).contains_key(r),
        r < u32::MAX,
        graph_nodes(*final(g)) == graph_nodes(*old(g)).insert(r, b),
        graph_edges(*final(g)) == graph_edges(*old(g)),
{
    g.add_node(b).index()
}

/// Relies on `StableGraph::add_edge`: a new edge under a vacant index; it
/// panics when an endpoint is not a node, or when no slot is vacant and
/// `u32::MAX` edges are in use.
#[verifier::external_body]
pub(crate) fn add_edge(g: &mut GraphType, a: usize, b: usize, kind: Edge) -> (r: usize)
    requires
        graph_nodes(*old(g)).contains_key(a),
        graph_nodes(*old(g)).contains_key(b),
        a < u32::MAX,
        b < u32::MAX,
        graph_edges(*old(g)).len() < u32::MAX,
    ensures
        !graph_edges(*old(g)).contains_key(r),
        graph_edges(*final(g)) == graph_edges(*old(g)).insert(r, (a, b, kind)),
        graph_nodes(*final(g)) == graph_nodes(*old(g)),
{
    g.add_edge(NodeIndex::new(a), NodeIndex::new(b), kind).index()
}

/// Relies on `StableGraph::remove_node`: the node goes, with every edge that
/// starts or ends at it; other indices keep their meaning.
#[verifier::external_body]
pub(crate) fn remove_node(g: &mut GraphType, a: usize)
    requires
        graph_nodes(*old(g)).contains_key(a),
        a < u32::MAX,
    ensures
        graph_nodes(*final(g)) == graph_nodes(*old(g)).remove(a),
        graph_edges(*final(g)) == edges_without(graph_edges(*old(g)), a),
{
    g.remove_node(NodeIndex::new(a));
}

/// Relies on `StableGraph::node_indices`: the live node indices, in
/// increasing order.
#[verifier::external_body]
pub(crate) fn node_indices(g: &GraphType) -> (r: Vec<usize>)
    ensures
        forall|i: int, j: int| 0 <= i < j < r@.len() ==> r@[i] < r@[j],
        forall|k: usize| #[trigger] r@.contains(k) <==> graph_nodes(*g).contains_key(k),
{
    g.node_indices().map(|i| i.index()).collect()
}

/// Relies on indexing a `StableGraph` by a node: the block stored there.
#[verifier::external_body]
pub(crate) fn block_at(g: &GraphType, a: usize) -> (r: &Block)
    requires
        graph_nodes(*g).contains_key(a),
        a < u32::MAX,
    ensures
        *r == graph_nodes(*g)[a],
{
    &g[NodeIndex::new(a)]
}

/// Relies on indexing a `StableGraph` mutably by a node: the stored block is
/// swapped for `b` and handed back.
#[verifier::external_body]
pub(crate) fn replace_block(g: &mut GraphType, a: usize, b: Block) -> (r: Block)
    requires
        graph_nodes(*old(g)).contains_key(a),
        a < u32::MAX,
    ensures
        r == graph_nodes(*old(g))[a],
        graph_nodes(*final(g)) == graph_nodes(*old(g)).insert(a, b),
        graph_edges(*final(g)) == graph_edges(*old(g)),
{
    std::mem::replace(&mut g[NodeIndex::new(a)], b)
}

/// Whether edge `t` leaves `a` (`outgoing`) or enters it.
pub open spec fn touches(t: (usize, usize, Edge), a: usize, outgoing: bool) -> bool {
    if outgoing {
        t.0 == a
    } else {
        t.1 == a
    }
}

/// Relies on `StableGraph::edges_directed`: each edge leaving (`outgoing`) or
/// entering `a` once, as (index, source, target, kind).
#[verifier::external_body]
pub(crate) fn edges_at(g: &GraphType, a: usize, outgoing: bool) -> (r: Vec<(usize, usize, usize, Edge)>)
    requires
        graph_nodes(*g).contains_key(a),
        a < u32::MAX,
    ensures
        forall|i: int, j: int| 0 <= i < j < r@.len() ==> r@[i].0 != r@[j].0,
        forall|i: int| 0 <= i < r@.len() ==> {
            &&& graph_edges(*g).contains_key(#[trigger] r@[i].0)
            &&& graph_edges(*g)[r@[i].0] == (r@[i].1, r@[i].2, r@[i].3)
            &&& touches(graph_edges(*g)[r@[i].0], a, outgoing)
        },
        forall|e: usize| #[trigger] graph_edges(*g).contains_key(e) && touches(graph_edges(*g)[e], a, outgoing)
            ==> exists|i: int| 0 <= i < r@.len() && r@[i].0 == e,
{
    let dir = if outgoing { Direction::Outgoing } else { Direction::Incoming };
    g.edges_directed(NodeIndex::new(a), dir)
        .map(|e| (e.id().index(), e.source().index(), e.target().index(), *e.weight()))
        .collect()
}

/// Some edge runs from `a` to `b`.
pub open spec fn has_edge(edges: EdgeMap, a: usize, b: usize) -> bool {
    exists|e: usize| #[trigger] edges.contains_key(e) && edges[e].0 == a && edges[e].1 == b
}

/// `p` is a walk along edges of `edges`.
pub open spec fn is_path(edges: EdgeMap, p: Seq<usize>) -> bool {
    &&& p.len() >= 1
    &&& forall|i: int| 0 <= i < p.len() - 1 ==> has_edge(edges, #[trigger] p[i], p[i + 1])
}

/// Some walk along `edges` leads from `a` to `b`.
pub open spec fn reachable(edges: EdgeMap, a: usize, b: usize) -> bool {
    exists|p: Seq<usize>| #[trigger] is_path(edges, p) && p[0] == a && p.last() == b
}

pub proof fn lemma_reach_refl(edges: EdgeMap, a: usize)
    ensures
        reachable(edges, a, a),
{
    assert(is_path(edges, seq![a]));
}

pub proof fn lemma_reach_step(edges: EdgeMap, a: usize, b: usize, c: usize)
    requires
        reachable(edges, a, b),
        has_edge(edges, b, c),
    ensures
        reachable(edges, a, c),
{
    let p = choose|p: Seq<usize>| #[trigger] is_path(edges, p) && p[0] == a && p.last() == b;
    let q = p.push(c);
    assert forall|i: int| 0 <= i < q.len() - 1 implies has_edge(edges, #[trigger] q[i], q[i + 1]) by {
        if i < p.len() - 1 {
            assert(q[i] == p[i] && q[i + 1] == p[i + 1]);
        }
    }
    assert(is_path(edges, q));
}

pub proof fn lemma_reach_edge(edges: EdgeMap, a: usize, e: usize)
    requires
        edges.contains_key(e),
        reachable(edges, a, edges[e].0),
    ensures
        reachable(edges, a, edges[e].1),
{
    lemma_reach_step(edges, a, edges[e].0, edges[e].1);
}

pub proof fn lemma_reach_trans(edges: EdgeMap, a: usize, b: usize, c: usize)
    requires
        reachable(edges, a, b),
        reachable(edges, b, c),
    ensures
        reachable(edges, a, c),
{
    let p = choose|p: Seq<usize>| #[trigger] is_path(edges, p) && p[0] == a && p.last() == b;
    let q = choose|q: Seq<usize>| #[trigger] is_path(edges, q) && q[0] == b && q.last() == c;
    let r = p + q.drop_first();
    assert forall|i: int| 0 <= i < r.len() - 1 implies has_edge(edges, #[trigger] r[i], r[i + 1]) by {
        if i < p.len() - 1 {
            assert(r[i] == p[i] && r[i + 1] == p[i + 1]);
        } else {
            let j = i - p.len() + 1;
            assert(r[i] == q[j] && r[i + 1] == q[j + 1]);
        }
    }
    assert(is_path(edges, r));
    if q.len() > 1 {
        assert(r.last() == q.last());
    }
}

/// Walks survive the addition of edges.
pub proof fn lemma_reach_mono(edges: EdgeMap, more: EdgeMap, a: usize, b: usize)
    requires
        reachable(edges, a, b),
        edges.submap_of(more),
    ensures
        reachable(more, a, b),
{
    let p = choose|p: Seq<usize>| #[trigger] is_path(edges, p) && p[0] == a && p.last() == b;
    assert forall|i: int| 0 <= i < p.len() - 1 implies has_edge(more, #[trigger] p[i], p[i + 1]) by {
        let e = choose|e: usize| #[trigger] edges.contains_key(e) && edges[e].0 == p[i] && edges[e].1 == p[i + 1];
        assert(more.contains_key(e));
    }
    assert(is_path(more, p));
}

} // verus!
