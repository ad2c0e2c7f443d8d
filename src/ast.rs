//! The statement tree that the builder lowers.
use vstd::prelude::*;

verus! {

broadcast use vstd::std_specs::vec::axiom_vec_decreases_to_view, vstd::seq::axiom_seq_index_decreases;

#[derive(Debug)]
pub enum TypeRef {
    Named { name: String, type_params: Vec<TypeRef> },
    Tuple { type_refs: Vec<TypeRef> },
}

#[derive(Debug)]
pub struct VarDecl {
    pub name: String,
    pub type_ref: TypeRef,
}

/// A literal. A floating-point literal is kept as the text it was written with.
#[derive(Debug)]
pub enum Literal {
    Boolean(bool),
    Integer(i64),
    Float(String),
    String(String),
}

#[derive(Debug)]
pub enum Operator {
    Divide,
    Multiply,
    Add,
    Subtract,
    ShiftLeft,
    ShiftRight,
    LessThan,
    LessThanEqual,
    GreaterThan,
    GreaterThanEqual,
    Equal,
    NotEqual,
    BitwiseAnd,
    BitwiseXor,
    BitwiseOr,
    LogicalAnd,
    LogicalOr,
}

#[derive(Debug)]
pub enum Expression {
    Literal(Literal),
    Identifier(String),
    MemberOf { structure: Box<Expression>, member: String },
    BinOp { left: Box<Expression>, operator: Operator, right: Box<Expression> },
    FnCall { target: Box<Expression>, args: Vec<Expression> },
}

#[derive(Debug)]
pub enum Statement {
    Assignment { target: Expression, expr: Expression },
    FnCall { target: Expression, args: Vec<Expression> },
    Await(Expression),
    Loop(Vec<Statement>),
}

#[derive(Debug)]
pub enum TopLevelNode {
    GlobalDecl(VarDecl),
    FnDecl { name: String, params: Vec<VarDecl>, return_type: TypeRef, body: Vec<Statement>, is_async: bool },
    InterruptDecl { name: String, body: Vec<Statement> },
}

/// Number of statements in `s`, nested ones included.
pub open spec fn stmt_size(s: Statement) -> nat
    decreases s,
{
    match s {
        Statement::Loop(body) => 1 + seq_size(body@),
        _ => 1,
    }
}

/// Number of statements in the list, nested ones included. Handing out
/// handles in pre-order, the `i`-th statement of a list that starts at handle
/// `h` gets `h + seq_size(list.take(i))`.
pub open spec fn seq_size(s: Seq<Statement>) -> nat
    decreases s, s.len(),
{
    if s.len() == 0 {
        0
    } else {
        seq_size(s.drop_last()) + stmt_size(s.last())
    }
}

pub proof fn lemma_seq_size_take(s: Seq<Statement>, i: int)
    requires
        0 <= i < s.len(),
    ensures
        seq_size(s.take(i + 1)) == seq_size(s.take(i)) + stmt_size(s[i]),
        seq_size(s.take(i)) <= seq_size(s.take(i + 1)),
{
    assert(s.take(i + 1).drop_last() =~= s.take(i));
}

pub proof fn lemma_seq_size_prefix(s: Seq<Statement>, j: int)
    requires
        0 <= j <= s.len(),
    ensures
        seq_size(s.take(j)) <= seq_size(s),
    decreases s.len() - j,
{
    if j < s.len() {
        lemma_seq_size_take(s, j);
        lemma_seq_size_prefix(s, j + 1);
    } else {
        assert(s.take(j) =~= s);
    }
}

/// The statement with pre-order handle `h` in `s`, counting from 0.
pub open spec fn stmt_at(s: Seq<Statement>, h: nat) -> Option<Statement>
    decreases s, s.len(),
{
    if s.len() == 0 {
        None
    } else {
        let base = seq_size(s.drop_last());
        if h < base {
            stmt_at(s.drop_last(), h)
        } else if h == base {
            Some(s.last())
        } else {
            match s.last() {
                Statement::Loop(body) => stmt_at(body@, (h - base - 1) as nat),
                _ => None,
            }
        }
    }
}

/// Number of statements in `s`, nested ones included.
pub fn statement_count(s: &Statement) -> (r: usize)
    requires
        stmt_size(*s) <= usize::MAX,
    ensures
        r == stmt_size(*s),
    decreases s,
{
    match s {
        Statement::Loop(body) => 1 + statements_count(body.as_slice()),
        _ => 1,
    }
}

/// Number of statements in the list, nested ones included.
pub fn statements_count(s: &[Statement]) -> (r: usize)
    requires
        seq_size(s@) <= usize::MAX,
    ensures
        r == seq_size(s@),
    decreases s@,
{
    let mut total: usize = 0;
    let mut i: usize = 0;
    while i < s.len()
        invariant
            0 <= i <= s@.len(),
            seq_size(s@) <= usize::MAX,
            total == seq_size(s@.take(i as int)),
        decreases s@.len() - i,
    {
        proof {
            lemma_seq_size_take(s@, i as int);
            lemma_seq_size_prefix(s@, i + 1);
        }
        total = total + statement_count(&s[i]);
        i = i + 1;
    }
    proof {
        assert(s@.take(i as int) =~= s@);
    }
    total
}

/// The statement with pre-order handle `h`, if there is one.
pub fn statement_at(s: &[Statement], h: usize) -> (r: Option<&Statement>)
    requires
        seq_size(s@) <= usize::MAX,
    ensures
        match r {
            Some(x) => stmt_at(s@, h as nat) == Some(*x),
            None => stmt_at(s@, h as nat) is None,
        },
    decreases s@,
{
    let mut i: usize = s.len();
    let mut base: usize = statements_count(s);
    proof {
        assert(s@.take(i as int) =~= s@);
    }
    while i > 0
        invariant
            0 <= i <= s@.len(),
            seq_size(s@) <= usize::MAX,
            base == seq_size(s@.take(i as int)),
            base <= seq_size(s@),
            stmt_at(s@, h as nat) == stmt_at(s@.take(i as int), h as nat),
        decreases i,
    {
        proof {
            lemma_seq_size_take(s@, i - 1);
            assert(s@.take(i as int).drop_last() =~= s@.take(i - 1));
            assert(s@.take(i as int).last() == s@[i - 1]);
        }
        let size = statement_count(&s[i - 1]);
        let prev = base - size;
        if h >= prev {
            if h == prev {
                return Some(&s[i - 1]);
            }
            match &s[i - 1] {
                Statement::Loop(body) => {
                    proof {
                        lemma_seq_size_prefix(s@, i as int);
                    }
                    return statement_at(body.as_slice(), h - prev - 1);
                },
                _ => {
                    return None;
                },
            }
        }
        base = prev;
        i = i - 1;
    }
    None
}

} // verus!