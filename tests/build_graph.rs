use async_cfg::ast::{Expression, Literal, Statement};
use async_cfg::builder::Builder;
use async_cfg::cfg::ControlFlowGraph;
use async_cfg::graph::Edge;
use petgraph::stable_graph::NodeIndex;
use petgraph::Direction;

fn ident(s: &str) -> Expression {
    Expression::Identifier(s.to_string())
}

fn call_expr(name: &str, args: Vec<Expression>) -> Expression {
    Expression::FnCall { target: Box::new(ident(name)), args }
}

fn assign(target: &str, value: i64) -> Statement {
    Statement::Assignment { target: ident(target), expr: Expression::Literal(Literal::Integer(value)) }
}

fn call(name: &str) -> Statement {
    Statement::FnCall { target: ident(name), args: vec![] }
}

fn await_on(name: &str) -> Statement {
    Statement::Await(ident(name))
}

fn build(name: &str, body: &[Statement]) -> ControlFlowGraph {
    Builder::new(name).build(body)
}

fn edges(cfg: &ControlFlowGraph) -> Vec<(usize, usize, Edge)> {
    let mut v: Vec<(usize, usize, Edge)> = cfg
        .graph
        .edge_indices()
        .map(|e| {
            let (a, b) = cfg.graph.edge_endpoints(e).unwrap();
            (a.index(), b.index(), cfg.graph[e])
        })
        .collect();
    v.sort_by_key(|t| (t.0, t.1));
    v
}

fn statements(cfg: &ControlFlowGraph, k: usize) -> Vec<usize> {
    cfg.graph[NodeIndex::new(k)].statements.clone()
}

fn name_of(cfg: &ControlFlowGraph, k: usize) -> String {
    cfg.graph[NodeIndex::new(k)].debug_name.clone()
}

fn bearing_blocks(cfg: &ControlFlowGraph) -> Vec<(usize, Vec<usize>)> {
    cfg.graph
        .node_indices()
        .map(|i| (i.index(), cfg.graph[i].statements.clone()))
        .filter(|(_, s)| !s.is_empty())
        .collect()
}

fn all_reachable(cfg: &ControlFlowGraph) -> bool {
    let mut seen = vec![cfg.entry_node];
    let mut todo = vec![cfg.entry_node];
    while let Some(k) = todo.pop() {
        for n in cfg.graph.neighbors_directed(NodeIndex::new(k), Direction::Outgoing) {
            if !seen.contains(&n.index()) {
                seen.push(n.index());
                todo.push(n.index());
            }
        }
    }
    cfg.graph.node_indices().all(|i| seen.contains(&i.index()))
}

fn no_pending_kinds(cfg: &ControlFlowGraph) -> bool {
    edges(cfg).iter().all(|t| t.2 == Edge::Jump || t.2 == Edge::Await)
}

fn nested_body() -> Vec<Statement> {
    vec![
        assign("a", 1),
        Statement::Loop(vec![call("tick"), await_on("timer"), Statement::Loop(vec![await_on("irq"), call("ack")])]),
        call("never"),
        await_on("x"),
        call("after"),
    ]
}

#[test]
fn empty_body_falls_through() {
    let cfg = build("f", &[]);
    assert_eq!(cfg.graph.node_count(), 3);
    let exit = cfg.exit_node.expect("an empty body returns");
    assert_eq!(edges(&cfg), vec![(cfg.entry_node, 1, Edge::Jump), (1, exit, Edge::Jump)]);
    assert_eq!(name_of(&cfg, cfg.entry_node), "function entry point");
    assert_eq!(name_of(&cfg, 1), "f0");
    assert_eq!(name_of(&cfg, exit), "function exit point");
}

#[test]
fn straight_line_statements_share_one_block() {
    let body = vec![assign("a", 1), call("f"), assign("b", 2)];
    let cfg = build("main", &body);
    assert_eq!(cfg.graph.node_count(), 3);
    assert_eq!(statements(&cfg, 1), vec![0, 1, 2]);
    assert_eq!(bearing_blocks(&cfg), vec![(1, vec![0, 1, 2])]);
    let exit = cfg.exit_node.unwrap();
    assert_eq!(edges(&cfg), vec![(cfg.entry_node, 1, Edge::Jump), (1, exit, Edge::Jump)]);
}

#[test]
fn await_splits_the_block() {
    let body = vec![assign("a", 1), await_on("e"), call("f")];
    let cfg = build("t", &body);
    let blocks = bearing_blocks(&cfg);
    assert_eq!(blocks.len(), 2);
    let (first, first_stmts) = blocks[0].clone();
    let (second, second_stmts) = blocks[1].clone();
    assert_eq!(first_stmts, vec![0, 1]);
    assert_eq!(second_stmts, vec![2]);
    let between: Vec<Edge> = edges(&cfg)
        .into_iter()
        .filter(|t| t.0 == first && t.1 == second)
        .map(|t| t.2)
        .collect();
    assert_eq!(between, vec![Edge::Await]);
    assert!(cfg.exit_node.is_some());
}

#[test]
fn infinite_loop_has_no_exit() {
    let body = vec![Statement::Loop(vec![await_on("e")])];
    let cfg = build("p", &body);
    assert_eq!(cfg.exit_node, None);
    let head = (0..cfg.graph.node_count())
        .find(|k| name_of(&cfg, *k).ends_with("(loop begin)"))
        .unwrap();
    let repeat = (0..cfg.graph.node_count())
        .find(|k| name_of(&cfg, *k).ends_with("(loop repeat)"))
        .unwrap();
    let (await_block, stmts) = bearing_blocks(&cfg)[0].clone();
    assert_eq!(stmts, vec![1]);
    let after_await: Vec<(usize, usize, Edge)> =
        edges(&cfg).into_iter().filter(|t| t.0 == await_block).collect();
    assert_eq!(after_await.len(), 1);
    assert_eq!(after_await[0].2, Edge::Await);
    let resume = after_await[0].1;
    let from_resume: Vec<(usize, usize, Edge)> = edges(&cfg).into_iter().filter(|t| t.0 == resume).collect();
    assert_eq!(from_resume, vec![(resume, repeat, Edge::Jump)]);
    let from_repeat: Vec<(usize, usize, Edge)> = edges(&cfg).into_iter().filter(|t| t.0 == repeat).collect();
    assert_eq!(from_repeat, vec![(repeat, head, Edge::Jump)]);
}

#[test]
fn loop_blocks_are_named_after_the_builder() {
    let body = vec![Statement::Loop(vec![await_on("e")])];
    let cfg = build("p", &body);
    assert_eq!(name_of(&cfg, 1), "p0");
    assert_eq!(name_of(&cfg, 2), "p1 (loop begin)");
    assert_eq!(name_of(&cfg, 3), "p2 (loop repeat)");
    assert_eq!(name_of(&cfg, 4), "p3");
    assert_eq!(name_of(&cfg, 5), "p4");
}

#[test]
fn await_after_an_endless_loop_opens_an_exit() {
    let body = vec![Statement::Loop(vec![call("spin")]), await_on("e")];
    let cfg = build("q", &body);
    assert!(cfg.exit_node.is_some());
    let body = vec![Statement::Loop(vec![call("spin")]), call("dead")];
    let cfg = build("q", &body);
    assert!(cfg.exit_node.is_none());
}

#[test]
fn every_node_is_reachable_from_entry() {
    let body = nested_body();
    let cfg = build("n", &body);
    assert!(all_reachable(&cfg));
    assert!(all_reachable(&build("n", &[])));
    assert!(all_reachable(&build("n", &[Statement::Loop(vec![])])));
}

#[test]
fn no_break_or_continue_edges_before_or_after_tidy() {
    let body = nested_body();
    let mut cfg = build("n", &body);
    assert!(no_pending_kinds(&cfg));
    cfg.tidy_graph();
    assert!(no_pending_kinds(&cfg));
}

#[test]
fn handles_number_nested_statements_in_pre_order() {
    let body = nested_body();
    let cfg = build("n", &body);
    let mut handles: Vec<usize> = bearing_blocks(&cfg).into_iter().flat_map(|(_, s)| s).collect();
    handles.sort();
    // 1 is the outer loop, 4 the inner one: loops own no block.
    assert_eq!(handles, vec![0, 2, 3, 5, 6, 7, 8, 9]);
}

#[test]
fn end_to_end_periodic_task() {
    let body = vec![Statement::Loop(vec![
        Statement::Await(call_expr("delay", vec![ident("period")])),
        Statement::Await(call_expr("log", vec![Expression::Literal(Literal::String("Hi!".to_string()))])),
    ])];
    let mut cfg = build("periodic", &body);
    assert_eq!(cfg.exit_node, None);
    assert!(no_pending_kinds(&cfg));
    // entry, body start, head, repeat, first await half, second await half, resume block
    assert_eq!(cfg.graph.node_count(), 7);
    let blocks = bearing_blocks(&cfg);
    assert_eq!(blocks.len(), 2);
    assert_eq!(blocks[0].1, vec![1]);
    assert_eq!(blocks[1].1, vec![2]);
    let head = 2;
    let repeat = 3;
    let e = edges(&cfg);
    assert!(e.contains(&(cfg.entry_node, 1, Edge::Jump)));
    assert!(e.contains(&(1, head, Edge::Jump)));
    assert!(e.contains(&(head, blocks[0].0, Edge::Jump)));
    assert!(e.contains(&(blocks[0].0, blocks[1].0, Edge::Await)));
    assert!(e.contains(&(repeat, head, Edge::Jump)));

    cfg.tidy_graph();
    assert_eq!(cfg.exit_node, None);
    assert!(no_pending_kinds(&cfg));
    let kept: Vec<usize> = cfg.graph.node_indices().map(|i| i.index()).collect();
    let empty_kept: Vec<usize> = kept.iter().cloned().filter(|k| statements(&cfg, *k).is_empty()).collect();
    assert_eq!(empty_kept, vec![cfg.entry_node]);
    assert_eq!(bearing_blocks(&cfg), blocks);
    let e = edges(&cfg);
    assert!(e.contains(&(blocks[0].0, blocks[1].0, Edge::Await)));
    assert!(e.contains(&(blocks[1].0, blocks[0].0, Edge::Await)));
    assert!(e.contains(&(cfg.entry_node, blocks[0].0, Edge::Jump)));
    assert_eq!(e.len(), 3);
}
