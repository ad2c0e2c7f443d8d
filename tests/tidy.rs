use async_cfg::ast::{Expression, Statement};
use async_cfg::builder::Builder;
use async_cfg::cfg::ControlFlowGraph;
use async_cfg::graph::{Block, Edge};
use petgraph::stable_graph::{NodeIndex, StableGraph};

fn ident(s: &str) -> Expression {
    Expression::Identifier(s.to_string())
}

fn call(name: &str) -> Statement {
    Statement::FnCall { target: ident(name), args: vec![] }
}

fn shape(cfg: &ControlFlowGraph) -> (Vec<(usize, Vec<usize>)>, Vec<(usize, usize, Edge)>) {
    let nodes = cfg.graph.node_indices().map(|i| (i.index(), cfg.graph[i].statements.clone())).collect();
    let mut edges: Vec<(usize, usize, Edge)> = cfg
        .graph
        .edge_indices()
        .map(|e| {
            let (a, b) = cfg.graph.edge_endpoints(e).unwrap();
            (a.index(), b.index(), cfg.graph[e])
        })
        .collect();
    edges.sort_by_key(|t| (t.0, t.1));
    (nodes, edges)
}

fn block(name: &str, statements: Vec<usize>) -> Block {
    let mut b = Block::with_name(name.to_string());
    b.statements = statements;
    b
}

#[test]
fn tidy_twice_equals_tidy_once() {
    let body = vec![
        call("a"),
        Statement::Loop(vec![call("b"), Statement::Await(ident("e")), call("c")]),
    ];
    let mut cfg = Builder::new("w").build(&body);
    cfg.tidy_graph();
    let once = shape(&cfg);
    cfg.tidy_graph();
    assert_eq!(shape(&cfg), once);
}

#[test]
fn tidy_keeps_statement_blocks_and_entry_kind() {
    let body = vec![call("a"), Statement::Await(ident("e")), call("c")];
    let mut cfg = Builder::new("w").build(&body);
    let before: Vec<(usize, Vec<usize>)> =
        shape(&cfg).0.into_iter().filter(|(_, s)| !s.is_empty()).collect();
    cfg.tidy_graph();
    let after = shape(&cfg);
    for b in &before {
        assert!(after.0.contains(b));
    }
    // entry -> [a, await e] -Await-> [c] -> exit; the empty start block is gone.
    let exit = cfg.exit_node.unwrap();
    assert_eq!(
        after.1,
        vec![(cfg.entry_node, before[0].0, Edge::Jump), (before[0].0, before[1].0, Edge::Await), (before[1].0, exit, Edge::Jump)]
    );
}

#[test]
fn tidy_keeps_the_kind_of_the_entering_edge() {
    let mut g = StableGraph::new();
    let a = g.add_node(block("a", vec![0]));
    let m = g.add_node(block("m", vec![]));
    let b = g.add_node(block("b", vec![1]));
    g.add_edge(a, m, Edge::Await);
    g.add_edge(m, b, Edge::Jump);
    let mut cfg = ControlFlowGraph { entry_node: a.index(), exit_node: Some(b.index()), graph: g };
    cfg.tidy_graph();
    assert_eq!(shape(&cfg).1, vec![(a.index(), b.index(), Edge::Await)]);
    assert_eq!(cfg.graph.node_count(), 2);
}

#[test]
fn tidy_prunes_isolated_nodes_only() {
    let mut g = StableGraph::new();
    let a = g.add_node(block("a", vec![0]));
    let lone = g.add_node(block("lone", vec![]));
    let b = g.add_node(block("b", vec![1]));
    g.add_edge(a, b, Edge::Jump);
    let mut cfg = ControlFlowGraph { entry_node: a.index(), exit_node: None, graph: g };
    cfg.tidy_graph();
    assert!(!cfg.graph.contains_node(lone));
    assert!(cfg.graph.contains_node(a) && cfg.graph.contains_node(b));
    assert_eq!(shape(&cfg).1, vec![(a.index(), b.index(), Edge::Jump)]);
}

#[test]
fn tidy_collapses_chains_of_markers() {
    let mut g = StableGraph::new();
    let a = g.add_node(block("a", vec![0]));
    let m1 = g.add_node(block("m1", vec![]));
    let m2 = g.add_node(block("m2", vec![]));
    let b = g.add_node(block("b", vec![1]));
    g.add_edge(a, m1, Edge::IfTrue);
    g.add_edge(m1, m2, Edge::Jump);
    g.add_edge(m2, b, Edge::Await);
    let mut cfg = ControlFlowGraph { entry_node: a.index(), exit_node: None, graph: g };
    cfg.tidy_graph();
    assert_eq!(shape(&cfg).1, vec![(a.index(), b.index(), Edge::IfTrue)]);
    assert_eq!(cfg.graph[NodeIndex::new(b.index())].statements, vec![1]);
}

#[test]
fn tidy_of_an_empty_loop_strands_the_entry() {
    let body = vec![Statement::Loop(vec![])];
    let mut cfg = Builder::new("z").build(&body);
    cfg.tidy_graph();
    // The empty loop collapses onto itself and takes every edge with it.
    assert_eq!(cfg.graph.node_count(), 1);
    assert_eq!(cfg.graph.edge_count(), 0);
    assert!(cfg.graph.contains_node(NodeIndex::new(cfg.entry_node)));
    cfg.tidy_graph();
    assert_eq!(cfg.graph.node_count(), 0);
}

#[test]
fn tidy_redirects_each_incoming_edge_with_its_own_kind() {
    let mut g = StableGraph::new();
    let a = g.add_node(block("a", vec![0]));
    let b = g.add_node(block("b", vec![1]));
    let m = g.add_node(block("m", vec![]));
    let c = g.add_node(block("c", vec![2]));
    g.add_edge(a, m, Edge::IfTrue);
    g.add_edge(a, m, Edge::Await);
    g.add_edge(b, m, Edge::Jump);
    g.add_edge(m, c, Edge::Jump);
    let mut cfg = ControlFlowGraph { entry_node: a.index(), exit_node: Some(c.index()), graph: g };
    cfg.tidy_graph();
    assert!(!cfg.graph.contains_node(m));
    let mut edges = shape(&cfg).1;
    edges.sort_by_key(|t| (t.0, t.1, format!("{:?}", t.2)));
    assert_eq!(
        edges,
        vec![(a.index(), c.index(), Edge::Await), (a.index(), c.index(), Edge::IfTrue), (b.index(), c.index(), Edge::Jump)]
    );
}

#[test]
fn tidy_keeps_a_marker_with_two_successors() {
    let body = vec![Statement::Loop(vec![call("a")]), Statement::Loop(vec![call("b")])];
    let mut cfg = Builder::new("two").build(&body);
    cfg.tidy_graph();
    let (nodes, edges) = shape(&cfg);
    let a_block = nodes.iter().find(|(_, s)| *s == vec![1]).unwrap().0;
    let b_block = nodes.iter().find(|(_, s)| *s == vec![3]).unwrap().0;
    // The first loop's repeat marker leads both back into the first loop and on to the second.
    let repeat = edges.iter().find(|t| t.0 == a_block).unwrap().1;
    assert!(statements_of(&cfg, repeat).is_empty());
    let mut from_repeat: Vec<usize> = edges.iter().filter(|t| t.0 == repeat).map(|t| t.1).collect();
    from_repeat.sort();
    let mut expected = vec![a_block, b_block];
    expected.sort();
    assert_eq!(from_repeat, expected);
    assert!(!edges.iter().any(|t| t.0 == a_block && t.1 == b_block));
}

fn statements_of(cfg: &ControlFlowGraph, k: usize) -> Vec<usize> {
    cfg.graph[NodeIndex::new(k)].statements.clone()
}

#[test]
fn tidy_of_an_await_loop_keeps_its_self_loop() {
    let body = vec![Statement::Loop(vec![Statement::Await(ident("e"))])];
    let mut cfg = Builder::new("w").build(&body);
    cfg.tidy_graph();
    let (nodes, edges) = shape(&cfg);
    assert_eq!(nodes.len(), 2);
    let w = nodes.iter().find(|(_, s)| *s == vec![1]).unwrap().0;
    assert_eq!(edges, vec![(cfg.entry_node, w, Edge::Jump), (w, w, Edge::Await)]);
    assert_eq!(cfg.exit_node, None);
}
