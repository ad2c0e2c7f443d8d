//! Human-readable rendering of the statement tree, into a string.
use crate::ast::{seq_size, stmt_at, Expression, Literal, Operator, Statement, TopLevelNode, TypeRef, VarDecl};
use vstd::prelude::*;

verus! {

broadcast use vstd::std_specs::vec::axiom_vec_decreases_to_view, vstd::std_specs::vec::axiom_vec_index_decreases,
    vstd::seq::axiom_seq_index_decreases;

/// Decimal digits of `n`, most significant first.
pub open spec fn decimal(n: nat) -> Seq<char>
    decreases n,
{
    if n < 10 {
        seq![digit_char(n)]
    } else {
        decimal(n / 10) + seq![digit_char(n % 10)]
    }
}

pub open spec fn digit_char(d: nat) -> char {
    if d == 0 {
        '0'
    } else if d == 1 {
        '1'
    } else if d == 2 {
        '2'
    } else if d == 3 {
        '3'
    } else if d == 4 {
        '4'
    } else if d == 5 {
        '5'
    } else if d == 6 {
        '6'
    } else if d == 7 {
        '7'
    } else if d == 8 {
        '8'
    } else {
        '9'
    }
}

fn digit_text(d: u64) -> (r: &'static str)
    requires
        d < 10,
    ensures
        r@ == seq![digit_char(d as nat)],
{
    proof {
        reveal_strlit("0");
        reveal_strlit("1");
        reveal_strlit("2");
        reveal_strlit("3");
        reveal_strlit("4");
        reveal_strlit("5");
        reveal_strlit("6");
        reveal_strlit("7");
        reveal_strlit("8");
        reveal_strlit("9");
    }
    if d == 0 {
        "0"
    } else if d == 1 {
        "1"
    } else if d == 2 {
        "2"
    } else if d == 3 {
        "3"
    } else if d == 4 {
        "4"
    } else if d == 5 {
        "5"
    } else if d == 6 {
        "6"
    } else if d == 7 {
        "7"
    } else if d == 8 {
        "8"
    } else {
        "9"
    }
}

pub(crate) fn push_decimal(s: &mut String, n: u64)
    ensures
        final(s)@ == old(s)@ + decimal(n as nat),
    decreases n,
{
    if n >= 10 {
        push_decimal(s, n / 10);
    }
    s.append(digit_text(n % 10));
    proof {
        assert(old(s)@ + decimal(n as nat) =~= final(s)@);
    }
}

/// Text of an integer: its decimal digits, after a minus sign when negative.
pub open spec fn int_text(i: int) -> Seq<char> {
    if i < 0 {
        seq!['-'] + decimal((-i) as nat)
    } else {
        decimal(i as nat)
    }
}

pub open spec fn operator_text(op: Operator) -> Seq<char> {
    match op {
        Operator::Divide => "/"@,
        Operator::Multiply => "*"@,
        Operator::Add => "+"@,
        Operator::Subtract => "-"@,
        Operator::ShiftLeft => "<<"@,
        Operator::ShiftRight => ">>"@,
        Operator::LessThan => "<"@,
        Operator::LessThanEqual => "<="@,
        Operator::GreaterThan => ">"@,
        Operator::GreaterThanEqual => ">="@,
        Operator::Equal => "=="@,
        Operator::NotEqual => "!="@,
        Operator::BitwiseAnd => "&"@,
        Operator::BitwiseXor => "^"@,
        Operator::BitwiseOr => "|"@,
        Operator::LogicalAnd => "&&"@,
        Operator::LogicalOr => "||"@,
    }
}

/// Literals print bare: strings without quotes, floats as written.
pub open spec fn literal_text(l: Literal) -> Seq<char> {
    match l {
        Literal::Boolean(b) => if b { "true"@ } else { "false"@ },
        Literal::Integer(i) => int_text(i as int),
        Literal::Float(f) => f@,
        Literal::String(s) => s@,
    }
}

pub open spec fn expr_text(e: Expression) -> Seq<char>
    decreases e,
{
    match e {
        Expression::Literal(l) => literal_text(l),
        Expression::Identifier(name) => name@,
        Expression::MemberOf { structure, member } => expr_text(*structure) + "."@ + member@,
        Expression::BinOp { left, operator, right } => expr_text(*left) + " "@ + operator_text(operator) + " "@
            + expr_text(*right),
        Expression::FnCall { target, args } => expr_text(*target) + "("@ + exprs_text(args@) + ")"@,
    }
}

/// Expressions separated by `", "`.
pub open spec fn exprs_text(s: Seq<Expression>) -> Seq<char>
    decreases s, s.len(),
{
    if s.len() == 0 {
        Seq::empty()
    } else if s.len() == 1 {
        expr_text(s[0])
    } else {
        exprs_text(s.drop_last()) + ", "@ + expr_text(s.last())
    }
}

pub open spec fn type_ref_text(t: TypeRef) -> Seq<char>
    decreases t,
{
    match t {
        TypeRef::Named { name, type_params } => if type_params@.len() == 0 {
            name@
        } else {
            name@ + "<"@ + type_refs_text(type_params@) + ">"@
        },
        TypeRef::Tuple { type_refs } => "("@ + type_refs_text(type_refs@) + ")"@,
    }
}

/// Types separated by `", "`.
pub open spec fn type_refs_text(s: Seq<TypeRef>) -> Seq<char>
    decreases s, s.len(),
{
    if s.len() == 0 {
        Seq::empty()
    } else if s.len() == 1 {
        type_ref_text(s[0])
    } else {
        type_refs_text(s.drop_last()) + ", "@ + type_ref_text(s.last())
    }
}

pub open spec fn var_decl_text(v: VarDecl) -> Seq<char> {
    v.name@ + ": "@ + type_ref_text(v.type_ref)
}

/// Declarations separated by `", "`.
pub open spec fn var_decls_text(s: Seq<VarDecl>) -> Seq<char>
    decreases s.len(),
{
    if s.len() == 0 {
        Seq::empty()
    } else if s.len() == 1 {
        var_decl_text(s[0])
    } else {
        var_decls_text(s.drop_last()) + ", "@ + var_decl_text(s.last())
    }
}

/// Two spaces per level.
pub open spec fn indent_text(n: nat) -> Seq<char>
    decreases n,
{
    if n == 0 {
        Seq::empty()
    } else {
        indent_text((n - 1) as nat) + "  "@
    }
}

/// A statement on its own line(s) at depth `n`; a loop's body one level deeper.
pub open spec fn stmt_text(s: Statement, n: nat) -> Seq<char>
    decreases s,
{
    match s {
        Statement::FnCall { target, args } => indent_text(n) + expr_text(target) + "("@ + exprs_text(args@) + ");\n"@,
        Statement::Assignment { target, expr } => indent_text(n) + expr_text(target) + " = "@ + expr_text(expr) + ";\n"@,
        Statement::Await(e) => indent_text(n) + "await "@ + expr_text(e) + ";\n"@,
        Statement::Loop(body) => if body@.len() == 0 {
            indent_text(n) + "loop {"@ + "}\n"@
        } else {
            indent_text(n) + "loop {"@ + "\n"@ + stmts_text(body@, n + 1) + indent_text(n) + "}\n"@
        },
    }
}

pub open spec fn stmts_text(s: Seq<Statement>, n: nat) -> Seq<char>
    decreases s, s.len(),
{
    if s.len() == 0 {
        Seq::empty()
    } else {
        stmts_text(s.drop_last(), n) + stmt_text(s.last(), n)
    }
}

/// Deepest nesting of loops in the statement.
pub open spec fn stmt_depth(s: Statement) -> nat
    decreases s,
{
    match s {
        Statement::Loop(body) => 1 + stmts_depth(body@),
        _ => 0,
    }
}

pub open spec fn stmts_depth(s: Seq<Statement>) -> nat
    decreases s, s.len(),
{
    if s.len() == 0 {
        0
    } else {
        let a = stmts_depth(s.drop_last());
        let b = stmt_depth(s.last());
        if a >= b { a } else { b }
    }
}

/// The unit type `()`, which a function declaration leaves unwritten.
pub open spec fn is_unit(t: TypeRef) -> bool {
    match t {
        TypeRef::Tuple { type_refs } => type_refs@.len() == 0,
        _ => false,
    }
}

/// Text of a body's braces and statements at depth `n + 1`.
pub open spec fn body_text(body: Seq<Statement>, n: nat) -> Seq<char> {
    (if body.len() == 0 { Seq::empty() } else { "\n"@ }) + stmts_text(body, n + 1) + "}\n"@
}

/// A declaration at depth `n`, followed by an empty line.
pub open spec fn top_level_text(t: TopLevelNode, n: nat) -> Seq<char> {
    match t {
        TopLevelNode::GlobalDecl(v) => "global "@ + var_decl_text(v) + "\n"@ + "\n"@,
        TopLevelNode::FnDecl { name, params, return_type, body, is_async } => (if is_async {
            "async "@
        } else {
            "fn "@
        }) + name@ + "("@ + var_decls_text(params@) + ") "@ + (if is_unit(return_type) {
            "{"@
        } else {
            type_ref_text(return_type) + " {"@
        }) + body_text(body@, n) + "\n"@,
        TopLevelNode::InterruptDecl { name, body } => "interrupt "@ + name@ + " {"@ + body_text(body@, n) + "\n"@,
    }
}

/// Deepest nesting of loops in the declaration's body.
pub open spec fn top_level_depth(t: TopLevelNode) -> nat {
    match t {
        TopLevelNode::GlobalDecl(_) => 0,
        TopLevelNode::FnDecl { body, .. } => stmts_depth(body@),
        TopLevelNode::InterruptDecl { body, .. } => stmts_depth(body@),
    }
}

proof fn lemma_stmts_depth(s: Seq<Statement>, i: int)
    requires
        0 <= i < s.len(),
    ensures
        stmt_depth(s[i]) <= stmts_depth(s),
    decreases s.len(),
{
    if i < s.len() - 1 {
        lemma_stmts_depth(s.drop_last(), i);
    }
}

/// A statement found by handle is nested no deeper than the list.
pub proof fn lemma_stmt_at_depth(s: Seq<Statement>, h: nat)
    requires
        stmt_at(s, h) is Some,
    ensures
        stmt_depth(stmt_at(s, h)->Some_0) <= stmts_depth(s),
    decreases s, s.len(),
{
    assert(s.len() > 0);
    let p = s.drop_last();
    let base = seq_size(p);
    assert(stmts_depth(s) >= stmts_depth(p) && stmts_depth(s) >= stmt_depth(s.last()));
    if h < base {
        lemma_stmt_at_depth(p, h);
    } else if h > base {
        if let Statement::Loop(body) = s.last() {
            assert(stmt_depth(s.last()) == 1 + stmts_depth(body@));
            lemma_stmt_at_depth(body@, (h - base - 1) as nat);
        }
    }
}

/// Renders the statement tree as text.
pub struct FormatAst {
    out: String,
    indent: u32,
}

impl FormatAst {
    pub closed spec fn text(&self) -> Seq<char> {
        self.out@
    }

    pub closed spec fn depth(&self) -> nat {
        self.indent as nat
    }

    pub fn new() -> (r: FormatAst)
        ensures
            r.text() == Seq::<char>::empty(),
            r.depth() == 0,
    {
        FormatAst { out: String::new(), indent: 0 }
    }

    pub fn with_indent(indent: u32) -> (r: FormatAst)
        ensures
            r.text() == Seq::<char>::empty(),
            r.depth() == indent,
    {
        FormatAst { out: String::new(), indent }
    }

    /// What has been rendered so far.
    pub fn output(&self) -> (r: &String)
        ensures
            r@ == self.text(),
    {
        &self.out
    }

    fn put(&mut self, s: &str)
        ensures
            final(self).out@ == old(self).out@ + s@,
            final(self).indent == old(self).indent,
    {
        self.out.append(s);
    }

    pub fn accept_operator(&mut self, x: &Operator)
        ensures
            final(self).text() == old(self).text() + operator_text(*x),
            final(self).depth() == old(self).depth(),
    {
        let s = match x {
            Operator::Divide => "/",
            Operator::Multiply => "*",
            Operator::Add => "+",
            Operator::Subtract => "-",
            Operator::ShiftLeft => "<<",
            Operator::ShiftRight => ">>",
            Operator::LessThan => "<",
            Operator::LessThanEqual => "<=",
            Operator::GreaterThan => ">",
            Operator::GreaterThanEqual => ">=",
            Operator::Equal => "==",
            Operator::NotEqual => "!=",
            Operator::BitwiseAnd => "&",
            Operator::BitwiseXor => "^",
            Operator::BitwiseOr => "|",
            Operator::LogicalAnd => "&&",
            Operator::LogicalOr => "||",
        };
        proof {
            reveal_strlit("/");
            reveal_strlit("*");
            reveal_strlit("+");
            reveal_strlit("-");
            reveal_strlit("<<");
            reveal_strlit(">>");
            reveal_strlit("<");
            reveal_strlit("<=");
            reveal_strlit(">");
            reveal_strlit(">=");
            reveal_strlit("==");
            reveal_strlit("!=");
            reveal_strlit("&");
            reveal_strlit("^");
            reveal_strlit("|");
            reveal_strlit("&&");
            reveal_strlit("||");
        }
        self.put(s);
    }

    pub fn accept_literal(&mut self, x: &Literal)
        ensures
            final(self).text() == old(self).text() + literal_text(*x),
            final(self).depth() == old(self).depth(),
    {
        match x {
            Literal::Boolean(b) => {
                proof {
                    reveal_strlit("true");
                    reveal_strlit("false");
                }
                if *b {
                    self.put("true");
                } else {
                    self.put("false");
                }
            },
            Literal::Integer(i) => {
                let ghost before = self.out@;
                if *i < 0 {
                    self.put("-");
                    proof {
                        reveal_strlit("-");
                    }
                    let magnitude: u64 = if *i == i64::MIN {
                        9_223_372_036_854_775_808u64
                    } else {
                        (-*i) as u64
                    };
                    push_decimal(&mut self.out, magnitude);
                } else {
                    push_decimal(&mut self.out, *i as u64);
                }
                proof {
                    assert(self.out@ =~= before + int_text(*i as int));
                }
            },
            Literal::Float(f) => self.put(f.as_str()),
            Literal::String(s) => self.put(s.as_str()),
        }
    }

    pub fn accept_expression(&mut self, x: &Expression)
        ensures
            final(self).text() == old(self).text() + expr_text(*x),
            final(self).depth() == old(self).depth(),
        decreases x,
    {
        let ghost before = self.out@;
        match x {
            Expression::Identifier(identifier) => {
                self.put(identifier.as_str());
            },
            Expression::BinOp { left, operator, right } => {
                self.accept_expression(left);
                self.put(" ");
                self.accept_operator(operator);
                self.put(" ");
                self.accept_expression(right);
                proof {
                    reveal_strlit(" ");
                }
            },
            Expression::FnCall { target, args } => {
                self.accept_expression(target);
                self.put("(");
                self.accept_expressions(args);
                self.put(")");
                proof {
                    reveal_strlit("(");
                    reveal_strlit(")");
                }
            },
            Expression::Literal(literal) => self.accept_literal(literal),
            Expression::MemberOf { structure, member } => {
                self.accept_expression(structure);
                self.put(".");
                self.put(member.as_str());
                proof {
                    reveal_strlit(".");
                }
            },
        }
        proof {
            assert(self.out@ =~= before + expr_text(*x));
        }
    }

    /// The expressions, separated by `", "`.
    pub fn accept_expressions(&mut self, xs: &Vec<Expression>)
        ensures
            final(self).text() == old(self).text() + exprs_text(xs@),
            final(self).depth() == old(self).depth(),
        decreases xs,
    {
        let ghost before = self.out@;
        let mut i: usize = 0;
        proof {
            assert(xs@.take(0) =~= Seq::<Expression>::empty());
            reveal_strlit(", ");
        }
        while i < xs.len()
            invariant
                0 <= i <= xs@.len(),
                self.out@ == before + exprs_text(xs@.take(i as int)),
                self.indent == old(self).indent,
            decreases xs@.len() - i,
        {
            proof {
                assert(xs@.take(i + 1).drop_last() =~= xs@.take(i as int));
            }
            if i > 0 {
                self.put(", ");
            }
            self.accept_expression(&xs[i]);
            proof {
                if i == 0 {
                    assert(xs@.take(1) =~= seq![xs@[0]]);
                }
                assert(self.out@ =~= before + exprs_text(xs@.take(i + 1)));
            }
            i = i + 1;
        }
        proof {
            assert(xs@.take(i as int) =~= xs@);
        }
    }

    pub fn accept_type_ref(&mut self, x: &TypeRef)
        ensures
            final(self).text() == old(self).text() + type_ref_text(*x),
            final(self).depth() == old(self).depth(),
        decreases x,
    {
        let ghost before = self.out@;
        proof {
            reveal_strlit("<");
            reveal_strlit(">");
            reveal_strlit("(");
            reveal_strlit(")");
        }
        match x {
            TypeRef::Named { name, type_params } => {
                self.put(name.as_str());
                if type_params.len() > 0 {
                    self.put("<");
                    self.accept_type_refs(type_params);
                    self.put(">");
                }
            },
            TypeRef::Tuple { type_refs } => {
                self.put("(");
                self.accept_type_refs(type_refs);
                self.put(")");
            },
        }
        proof {
            assert(self.out@ =~= before + type_ref_text(*x));
        }
    }

    /// The types, separated by `", "`.
    pub fn accept_type_refs(&mut self, xs: &Vec<TypeRef>)
        ensures
            final(self).text() == old(self).text() + type_refs_text(xs@),
            final(self).depth() == old(self).depth(),
        decreases xs,
    {
        let ghost before = self.out@;
        let mut i: usize = 0;
        proof {
            assert(xs@.take(0) =~= Seq::<TypeRef>::empty());
            reveal_strlit(", ");
        }
        while i < xs.len()
            invariant
                0 <= i <= xs@.len(),
                self.out@ == before + type_refs_text(xs@.take(i as int)),
                self.indent == old(self).indent,
            decreases xs@.len() - i,
        {
            proof {
                assert(xs@.take(i + 1).drop_last() =~= xs@.take(i as int));
            }
            if i > 0 {
                self.put(", ");
            }
            self.accept_type_ref(&xs[i]);
            proof {
                if i == 0 {
                    assert(xs@.take(1) =~= seq![xs@[0]]);
                }
                assert(self.out@ =~= before + type_refs_text(xs@.take(i + 1)));
            }
            i = i + 1;
        }
        proof {
            assert(xs@.take(i as int) =~= xs@);
        }
    }

    pub fn accept_var_decl(&mut self, x: &VarDecl)
        ensures
            final(self).text() == old(self).text() + var_decl_text(*x),
            final(self).depth() == old(self).depth(),
    {
        let ghost before = self.out@;
        self.put(x.name.as_str());
        self.put(": ");
        self.accept_type_ref(&x.type_ref);
        proof {
            reveal_strlit(": ");
            assert(self.out@ =~= before + var_decl_text(*x));
        }
    }

    /// The declarations, separated by `", "`.
    pub fn accept_var_decls(&mut self, xs: &Vec<VarDecl>)
        ensures
            final(self).text() == old(self).text() + var_decls_text(xs@),
            final(self).depth() == old(self).depth(),
    {
        let ghost before = self.out@;
        let mut i: usize = 0;
        proof {
            assert(xs@.take(0) =~= Seq::<VarDecl>::empty());
            reveal_strlit(", ");
        }
        while i < xs.len()
            invariant
                0 <= i <= xs@.len(),
                self.out@ == before + var_decls_text(xs@.take(i as int)),
                self.indent == old(self).indent,
            decreases xs@.len() - i,
        {
            proof {
                assert(xs@.take(i + 1).drop_last() =~= xs@.take(i as int));
            }
            if i > 0 {
                self.put(", ");
            }
            self.accept_var_decl(&xs[i]);
            proof {
                if i == 0 {
                    assert(xs@.take(1) =~= seq![xs@[0]]);
                }
                assert(self.out@ =~= before + var_decls_text(xs@.take(i + 1)));
            }
            i = i + 1;
        }
        proof {
            assert(xs@.take(i as int) =~= xs@);
        }
    }

    /// Writes the indentation of the current depth.
    fn indent(&mut self)
        ensures
            final(self).out@ == old(self).out@ + indent_text(old(self).indent as nat),
            final(self).indent == old(self).indent,
    {
        let ghost before = self.out@;
        let mut j: u32 = 0;
        proof {
            reveal_strlit("  ");
            assert(before + indent_text(0) =~= before);
        }
        while j < self.indent
            invariant
                j <= self.indent,
                self.indent == old(self).indent,
                self.out@ == before + indent_text(j as nat),
            decreases self.indent - j,
        {
            self.put("  ");
            proof {
                assert(self.out@ =~= before + indent_text((j + 1) as nat));
            }
            j = j + 1;
        }
    }

    pub fn accept_statement(&mut self, x: &Statement)
        requires
            old(self).depth() + stmt_depth(*x) <= u32::MAX,
        ensures
            final(self).text() == old(self).text() + stmt_text(*x, old(self).depth()),
            final(self).depth() == old(self).depth(),
        decreases x,
    {
        let ghost before = self.out@;
        self.indent();
        proof {
            reveal_strlit("(");
            reveal_strlit(");\n");
            reveal_strlit(" = ");
            reveal_strlit(";\n");
            reveal_strlit("await ");
            reveal_strlit("loop {");
            reveal_strlit("\n");
            reveal_strlit("}\n");
        }
        match x {
            Statement::FnCall { target, args } => {
                self.accept_expression(target);
                self.put("(");
                self.accept_expressions(args);
                self.put(");\n");
            },
            Statement::Assignment { target, expr } => {
                self.accept_expression(target);
                self.put(" = ");
                self.accept_expression(expr);
                self.put(";\n");
            },
            Statement::Await(expr) => {
                self.put("await ");
                self.accept_expression(expr);
                self.put(";\n");
            },
            Statement::Loop(statements) => {
                self.put("loop {");
                if statements.len() > 0 {
                    self.put("\n");
                }
                self.indent = self.indent + 1;
                self.accept_statements(statements);
                self.indent = self.indent - 1;
                if statements.len() > 0 {
                    self.indent();
                }
                self.put("}\n");
            },
        }
        proof {
            assert(self.out@ =~= before + stmt_text(*x, old(self).depth()));
        }
    }

    /// The statements, one after the other, at the current depth.
    pub fn accept_statements(&mut self, xs: &Vec<Statement>)
        requires
            old(self).depth() + stmts_depth(xs@) <= u32::MAX,
        ensures
            final(self).text() == old(self).text() + stmts_text(xs@, old(self).depth()),
            final(self).depth() == old(self).depth(),
        decreases xs,
    {
        let ghost before = self.out@;
        let mut i: usize = 0;
        proof {
            assert(xs@.take(0) =~= Seq::<Statement>::empty());
        }
        while i < xs.len()
            invariant
                0 <= i <= xs@.len(),
                self.out@ == before + stmts_text(xs@.take(i as int), old(self).depth()),
                self.indent == old(self).indent,
                old(self).depth() + stmts_depth(xs@) <= u32::MAX,
            decreases xs@.len() - i,
        {
            proof {
                assert(xs@.take(i + 1).drop_last() =~= xs@.take(i as int));
                lemma_stmts_depth(xs@, i as int);
            }
            self.accept_statement(&xs[i]);
            proof {
                assert(self.out@ =~= before + stmts_text(xs@.take(i + 1), old(self).depth()));
            }
            i = i + 1;
        }
        proof {
            assert(xs@.take(i as int) =~= xs@);
        }
    }

    /// A body's statements one level deeper, and its closing brace.
    fn accept_body(&mut self, body: &Vec<Statement>)
        requires
            old(self).depth() + 1 + stmts_depth(body@) <= u32::MAX,
        ensures
            final(self).text() == old(self).text() + body_text(body@, old(self).depth()),
            final(self).depth() == old(self).depth(),
    {
        let ghost before = self.out@;
        proof {
            reveal_strlit("\n");
            reveal_strlit("}\n");
        }
        if body.len() > 0 {
            self.put("\n");
        }
        self.indent = self.indent + 1;
        self.accept_statements(body);
        self.indent = self.indent - 1;
        self.put("}\n");
        proof {
            assert(self.out@ =~= before + body_text(body@, old(self).depth()));
        }
    }

    pub fn accept_top_level_node(&mut self, x: &TopLevelNode)
        requires
            old(self).depth() + 1 + top_level_depth(*x) <= u32::MAX,
        ensures
            final(self).text() == old(self).text() + top_level_text(*x, old(self).depth()),
            final(self).depth() == old(self).depth(),
    {
        let ghost before = self.out@;
        proof {
            reveal_strlit("global ");
            reveal_strlit("\n");
            reveal_strlit("async ");
            reveal_strlit("fn ");
            reveal_strlit("(");
            reveal_strlit(") ");
            reveal_strlit("{");
            reveal_strlit(" {");
            reveal_strlit("interrupt ");
        }
        match x {
            TopLevelNode::GlobalDecl(vardecl) => {
                self.put("global ");
                self.accept_var_decl(vardecl);
                self.put("\n");
            },
            TopLevelNode::FnDecl { name, params, return_type, body, is_async } => {
                if *is_async {
                    self.put("async ");
                } else {
                    self.put("fn ");
                }
                self.put(name.as_str());
                self.put("(");
                self.accept_var_decls(params);
                self.put(") ");
                let unit = match return_type {
                    TypeRef::Tuple { type_refs } => type_refs.len() == 0,
                    _ => false,
                };
                if unit {
                    self.put("{");
                } else {
                    self.accept_type_ref(return_type);
                    self.put(" {");
                }
                self.accept_body(body);
            },
            TopLevelNode::InterruptDecl { name, body } => {
                self.put("interrupt ");
                self.put(name.as_str());
                self.put(" {");
                self.accept_body(body);
            },
        }
        self.put("\n");
        proof {
            assert(self.out@ =~= before + top_level_text(*x, old(self).depth()));
        }
    }
}

} // verus!