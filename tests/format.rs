use async_cfg::ast::{
    statement_at, statement_count, statements_count, Expression, Literal, Operator, Statement, TopLevelNode, TypeRef,
    VarDecl,
};
use async_cfg::builder::Builder;
use async_cfg::format::FormatAst;
use async_cfg::graph::Block;
use petgraph::stable_graph::NodeIndex;

fn ident(s: &str) -> Expression {
    Expression::Identifier(s.to_string())
}

fn integer(i: i64) -> Expression {
    Expression::Literal(Literal::Integer(i))
}

fn expr_text(e: &Expression) -> String {
    let mut f = FormatAst::new();
    f.accept_expression(e);
    f.output().clone()
}

fn stmt_text(s: &Statement, indent: u32) -> String {
    let mut f = FormatAst::with_indent(indent);
    f.accept_statement(s);
    f.output().clone()
}

fn named(s: &str, params: Vec<TypeRef>) -> TypeRef {
    TypeRef::Named { name: s.to_string(), type_params: params }
}

#[test]
fn expressions_render_infix_and_calls() {
    let e = Expression::BinOp { left: Box::new(ident("a")), operator: Operator::ShiftLeft, right: Box::new(integer(3)) };
    assert_eq!(expr_text(&e), "a << 3");
    let call = Expression::FnCall { target: Box::new(ident("f")), args: vec![ident("x"), integer(-42), ident("y")] };
    assert_eq!(expr_text(&call), "f(x, -42, y)");
    let member = Expression::MemberOf { structure: Box::new(call), member: "next".to_string() };
    assert_eq!(expr_text(&member), "f(x, -42, y).next");
    let empty_call = Expression::FnCall { target: Box::new(ident("g")), args: vec![] };
    assert_eq!(expr_text(&empty_call), "g()");
}

#[test]
fn literals_render_bare() {
    assert_eq!(expr_text(&integer(0)), "0");
    assert_eq!(expr_text(&integer(1234567)), "1234567");
    assert_eq!(expr_text(&integer(i64::MIN)), "-9223372036854775808");
    assert_eq!(expr_text(&integer(i64::MAX)), "9223372036854775807");
    assert_eq!(expr_text(&Expression::Literal(Literal::Boolean(true))), "true");
    assert_eq!(expr_text(&Expression::Literal(Literal::Boolean(false))), "false");
    assert_eq!(expr_text(&Expression::Literal(Literal::Float(format!("{}", 2.5f64)))), "2.5");
    assert_eq!(expr_text(&Expression::Literal(Literal::String("Hi!".to_string()))), "Hi!");
}

#[test]
fn every_operator_has_its_symbol() {
    let ops = vec![
        (Operator::Divide, "/"),
        (Operator::Multiply, "*"),
        (Operator::Add, "+"),
        (Operator::Subtract, "-"),
        (Operator::ShiftLeft, "<<"),
        (Operator::ShiftRight, ">>"),
        (Operator::LessThan, "<"),
        (Operator::LessThanEqual, "<="),
        (Operator::GreaterThan, ">"),
        (Operator::GreaterThanEqual, ">="),
        (Operator::Equal, "=="),
        (Operator::NotEqual, "!="),
        (Operator::BitwiseAnd, "&"),
        (Operator::BitwiseXor, "^"),
        (Operator::BitwiseOr, "|"),
        (Operator::LogicalAnd, "&&"),
        (Operator::LogicalOr, "||"),
    ];
    for (op, text) in ops {
        let mut f = FormatAst::new();
        f.accept_operator(&op);
        assert_eq!(f.output(), text);
    }
}

#[test]
fn statements_render_with_indentation() {
    let assign = Statement::Assignment { target: ident("a"), expr: integer(1) };
    assert_eq!(stmt_text(&assign, 0), "a = 1;\n");
    assert_eq!(stmt_text(&assign, 2), "    a = 1;\n");
    let call = Statement::FnCall { target: ident("f"), args: vec![ident("x")] };
    assert_eq!(stmt_text(&call, 1), "  f(x);\n");
    let aw = Statement::Await(ident("e"));
    assert_eq!(stmt_text(&aw, 0), "await e;\n");
    let lp = Statement::Loop(vec![Statement::Await(ident("e")), Statement::Loop(vec![])]);
    assert_eq!(stmt_text(&lp, 1), "  loop {\n    await e;\n    loop {}\n  }\n");
}

#[test]
fn declarations_render_like_source() {
    let global = TopLevelNode::GlobalDecl(VarDecl { name: "c".to_string(), type_ref: named("Continuation", vec![]) });
    let delay = TopLevelNode::FnDecl {
        name: "delay".to_string(),
        params: vec![
            VarDecl { name: "ms".to_string(), type_ref: named("u32", vec![]) },
            VarDecl { name: "v".to_string(), type_ref: named("Vec", vec![named("u8", vec![])]) },
        ],
        return_type: TypeRef::Tuple { type_refs: vec![] },
        body: vec![Statement::FnCall { target: ident("start"), args: vec![ident("ms")] }],
        is_async: true,
    };
    let init = TopLevelNode::FnDecl {
        name: "init".to_string(),
        params: vec![],
        return_type: TypeRef::Tuple { type_refs: vec![named("u8", vec![]), named("bool", vec![])] },
        body: vec![],
        is_async: false,
    };
    let irq = TopLevelNode::InterruptDecl { name: "tick".to_string(), body: vec![Statement::Await(ident("c"))] };
    let mut f = FormatAst::new();
    f.accept_top_level_node(&global);
    f.accept_top_level_node(&delay);
    f.accept_top_level_node(&init);
    f.accept_top_level_node(&irq);
    assert_eq!(
        f.output(),
        "global c: Continuation\n\n\
         async delay(ms: u32, v: Vec<u8>) {\n  start(ms);\n}\n\n\
         fn init() (u8, bool) {}\n\n\
         interrupt tick {\n  await c;\n}\n\n"
    );
}

#[test]
fn handles_find_nested_statements() {
    let body = vec![
        Statement::FnCall { target: ident("a"), args: vec![] },
        Statement::Loop(vec![Statement::Await(ident("b")), Statement::Loop(vec![Statement::Await(ident("c"))])]),
        Statement::FnCall { target: ident("d"), args: vec![] },
    ];
    assert_eq!(statements_count(&body), 6);
    assert_eq!(statement_count(&body[1]), 4);
    let texts: Vec<String> = (0..7usize)
        .map(|h| statement_at(&body, h).map(|s| stmt_text(s, 0)).unwrap_or_default())
        .collect();
    assert_eq!(texts[0], "a();\n");
    assert!(texts[1].starts_with("loop {"));
    assert_eq!(texts[2], "await b;\n");
    assert!(texts[3].starts_with("loop {"));
    assert_eq!(texts[4], "await c;\n");
    assert_eq!(texts[5], "d();\n");
    assert!(statement_at(&body, 6).is_none());
}

#[test]
fn block_labels_list_their_statements() {
    let body = vec![Statement::Assignment { target: ident("a"), expr: integer(1) }, Statement::Await(ident("e"))];
    let cfg = Builder::new("f").build(&body);
    let first = &cfg.graph[NodeIndex::new(1)];
    assert_eq!(first.describe(&body), "f0:\n  a = 1;\n\n  await e;\n");
    let entry = &cfg.graph[NodeIndex::new(cfg.entry_node)];
    assert_eq!(entry.describe(&body), "function entry point");
    let mut stray = Block::with_name("x".to_string());
    stray.statements = vec![9];
    assert_eq!(stray.describe(&body), "x:\n");
}
