//! Abstract syntax tree of the language, together with its mathematical model.
//!
//! Every executable node has a model in which owned strings become `Seq<char>`
//! and vectors become `Seq`; the parser and the generator state their contracts
//! over these models.
use vstd::prelude::*;

verus! {

broadcast use vstd::std_specs::vec::axiom_vec_index_decreases;

/// A literal value written directly in the source.
#[derive(Debug, PartialEq)]
pub enum Literal {
    Integer(i64),
    Boolean(bool),
    Null,
    String(String),
    Array(Vec<Expression>),
    Dict(Vec<(Expression, Expression)>),
}

#[derive(Debug, PartialEq)]
pub enum Expression {
    Literal(Literal),
    Identifier(String),
    BinaryOp { op: BinaryOperator, left: Box<Expression>, right: Box<Expression> },
    UnaryOp { op: UnaryOperator, expr: Box<Expression> },
    ArrayIndex { array: Box<Expression>, index: Box<Expression> },
    MapIndex { map: Box<Expression>, key: Box<Expression> },
    FunctionCall { name: String, args: Vec<Expression> },
    InterpolatedString { parts: Vec<Expression> },
    Range { start: Box<Expression>, end: Box<Expression> },
    Length { expr: Box<Expression> },
}

#[derive(Debug, Clone, Copy, PartialEq, Eq, Hash, Structural)]
pub enum BinaryOperator {
    Add,
    Subtract,
    Multiply,
    Divide,
    Modulo,
    Equals,
    NotEquals,
    Less,
    Greater,
    LessEquals,
    GreaterEquals,
    And,
    Or,
}

#[derive(Debug, Clone, Copy, PartialEq, Eq, Hash, Structural)]
pub enum UnaryOperator {
    Negate,
    Not,
}

#[derive(Debug, PartialEq)]
pub enum Statement {
    Assignment { name: String, value: Expression },
    Command { name: String, args: Vec<Expression> },
    If { condition: Expression, then_branch: Vec<Statement>, else_branch: Option<Vec<Statement>> },
    While { condition: Expression, body: Vec<Statement> },
    For { variable: String, iterable: Expression, body: Vec<Statement> },
    FunctionDef {
        name: String,
        params: Vec<String>,
        body: Vec<Statement>,
        return_value: Option<Expression>,
    },
    Return { value: Option<Expression> },
    Try { body: Vec<Statement>, catch_var: String, catch_body: Vec<Statement> },
    Break,
    Continue,
    ExpressionStatement(Expression),
}

/// A whole program: its statements in execution order.
#[derive(Debug, PartialEq)]
pub struct Program(pub Vec<Statement>);

/// Model of a [`Literal`].
pub enum LitM {
    Integer(i64),
    Boolean(bool),
    Null,
    Text(Seq<char>),
    Array(Seq<ExprM>),
    Dict(Seq<(ExprM, ExprM)>),
}

/// Model of an [`Expression`].
pub enum ExprM {
    Literal(LitM),
    Identifier(Seq<char>),
    BinaryOp { op: BinaryOperator, left: Box<ExprM>, right: Box<ExprM> },
    UnaryOp { op: UnaryOperator, operand: Box<ExprM> },
    ArrayIndex { array: Box<ExprM>, index: Box<ExprM> },
    MapIndex { map: Box<ExprM>, key: Box<ExprM> },
    FunctionCall { name: Seq<char>, args: Seq<ExprM> },
    InterpolatedString { parts: Seq<ExprM> },
    Range { start: Box<ExprM>, end: Box<ExprM> },
    Length { operand: Box<ExprM> },
}

/// Model of a [`Statement`].
pub enum StmtM {
    Assignment { name: Seq<char>, value: ExprM },
    Command { name: Seq<char>, args: Seq<ExprM> },
    If { condition: ExprM, then_branch: Seq<StmtM>, else_branch: Option<Seq<StmtM>> },
    While { condition: ExprM, body: Seq<StmtM> },
    For { variable: Seq<char>, iterable: ExprM, body: Seq<StmtM> },
    FunctionDef {
        name: Seq<char>,
        params: Seq<Seq<char>>,
        body: Seq<StmtM>,
        return_value: Option<ExprM>,
    },
    Return { value: Option<ExprM> },
    Try { body: Seq<StmtM>, catch_var: Seq<char>, catch_body: Seq<StmtM> },
    Break,
    Continue,
    ExpressionStatement(ExprM),
}

pub open spec fn lit_model(l: &Literal) -> LitM
    decreases l, 0int,
{
    match l {
        Literal::Integer(n) => LitM::Integer(*n),
        Literal::Boolean(b) => LitM::Boolean(*b),
        Literal::Null => LitM::Null,
        Literal::String(s) => LitM::Text(s@),
        Literal::Array(v) => LitM::Array(exprs_model(v, v.len() as int)),
        Literal::Dict(v) => LitM::Dict(pairs_model(v, v.len() as int)),
    }
}

pub open spec fn expr_model(e: &Expression) -> ExprM
    decreases e, 0int,
{
    match e {
        Expression::Literal(l) => ExprM::Literal(lit_model(l)),
        Expression::Identifier(s) => ExprM::Identifier(s@),
        Expression::BinaryOp { op, left, right } => ExprM::BinaryOp {
            op: *op,
            left: Box::new(expr_model(&**left)),
            right: Box::new(expr_model(&**right)),
        },
        Expression::UnaryOp { op, expr } => ExprM::UnaryOp {
            op: *op,
            operand: Box::new(expr_model(&**expr)),
        },
        Expression::ArrayIndex { array, index } => ExprM::ArrayIndex {
            array: Box::new(expr_model(&**array)),
            index: Box::new(expr_model(&**index)),
        },
        Expression::MapIndex { map, key } => ExprM::MapIndex {
            map: Box::new(expr_model(&**map)),
            key: Box::new(expr_model(&**key)),
        },
        Expression::FunctionCall { name, args } => ExprM::FunctionCall {
            name: name@,
            args: exprs_model(args, args.len() as int),
        },
        Expression::InterpolatedString { parts } => ExprM::InterpolatedString {
            parts: exprs_model(parts, parts.len() as int),
        },
        Expression::Range { start, end } => ExprM::Range {
            start: Box::new(expr_model(&**start)),
            end: Box::new(expr_model(&**end)),
        },
        Expression::Length { expr } => ExprM::Length { operand: Box::new(expr_model(&**expr)) },
    }
}

/// Model of the first `n` expressions of `v`.
pub open spec fn exprs_model(v: &Vec<Expression>, n: int) -> Seq<ExprM>
    decreases v, n,
{
    if n <= 0 || n > v.len() {
        seq![]
    } else {
        exprs_model(v, n - 1).push(expr_model(&v[n - 1]))
    }
}

/// Model of the first `n` key/value pairs of `v`.
pub open spec fn pairs_model(v: &Vec<(Expression, Expression)>, n: int) -> Seq<(ExprM, ExprM)>
    decreases v, n,
{
    if n <= 0 || n > v.len() {
        seq![]
    } else {
        pairs_model(v, n - 1).push((expr_model(&v[n - 1].0), expr_model(&v[n - 1].1)))
    }
}

pub open spec fn stmt_model(s: &Statement) -> StmtM
    decreases s, 0int,
{
    match s {
        Statement::Assignment { name, value } => StmtM::Assignment {
            name: name@,
            value: expr_model(value),
        },
        Statement::Command { name, args } => StmtM::Command {
            name: name@,
            args: exprs_model(args, args.len() as int),
        },
        Statement::If { condition, then_branch, else_branch } => StmtM::If {
            condition: expr_model(condition),
            then_branch: stmts_model(then_branch, then_branch.len() as int),
            else_branch: match else_branch {
                Some(b) => Some(stmts_model(b, b.len() as int)),
                None => None,
            },
        },
        Statement::While { condition, body } => StmtM::While {
            condition: expr_model(condition),
            body: stmts_model(body, body.len() as int),
        },
        Statement::For { variable, iterable, body } => StmtM::For {
            variable: variable@,
            iterable: expr_model(iterable),
            body: stmts_model(body, body.len() as int),
        },
        Statement::FunctionDef { name, params, body, return_value } => StmtM::FunctionDef {
            name: name@,
            params: params@.map_values(|p: String| p@),
            body: stmts_model(body, body.len() as int),
            return_value: match return_value {
                Some(v) => Some(expr_model(v)),
                None => None,
            },
        },
        Statement::Return { value } => StmtM::Return {
            value: match value {
                Some(v) => Some(expr_model(v)),
                None => None,
            },
        },
        Statement::Try { body, catch_var, catch_body } => StmtM::Try {
            body: stmts_model(body, body.len() as int),
            catch_var: catch_var@,
            catch_body: stmts_model(catch_body, catch_body.len() as int),
        },
        Statement::Break => StmtM::Break,
        Statement::Continue => StmtM::Continue,
        Statement::ExpressionStatement(e) => StmtM::ExpressionStatement(expr_model(e)),
    }
}

/// Model of the first `n` statements of `v`.
pub open spec fn stmts_model(v: &Vec<Statement>, n: int) -> Seq<StmtM>
    decreases v, n,
{
    if n <= 0 || n > v.len() {
        seq![]
    } else {
        stmts_model(v, n - 1).push(stmt_model(&v[n - 1]))
    }
}

/// Model of a whole statement vector.
pub open spec fn block_model(v: &Vec<Statement>) -> Seq<StmtM> {
    stmts_model(v, v.len() as int)
}

/// Model of a whole expression vector.
pub open spec fn list_model(v: &Vec<Expression>) -> Seq<ExprM> {
    exprs_model(v, v.len() as int)
}

impl Program {
    pub open spec fn model(&self) -> Seq<StmtM> {
        block_model(&self.0)
    }
}

/// Pushing onto an expression vector extends its model by the new element's model.
pub proof fn lemma_exprs_push(v1: &Vec<Expression>, v2: &Vec<Expression>, e: Expression)
    requires
        v2@ == v1@.push(e),
    ensures
        list_model(v2) == list_model(v1).push(expr_model(&e)),
{
    lemma_exprs_prefix(v1, v2, v1.len() as int);
    assert(v2[v1.len() as int] == e);
}

/// Two vectors that agree on their first `n` elements agree on their first `n` models.
pub proof fn lemma_exprs_prefix(v1: &Vec<Expression>, v2: &Vec<Expression>, n: int)
    requires
        0 <= n <= v1.len(),
        n <= v2.len(),
        forall|i: int| 0 <= i < n ==> v1@[i] == v2@[i],
    ensures
        exprs_model(v1, n) == exprs_model(v2, n),
    decreases n,
{
    if n > 0 {
        lemma_exprs_prefix(v1, v2, n - 1);
        assert(v1[n - 1] == v2[n - 1]);
    }
}

/// Pushing onto a statement vector extends its model by the new element's model.
pub proof fn lemma_stmts_push(v1: &Vec<Statement>, v2: &Vec<Statement>, s: Statement)
    requires
        v2@ == v1@.push(s),
    ensures
        block_model(v2) == block_model(v1).push(stmt_model(&s)),
{
    lemma_stmts_prefix(v1, v2, v1.len() as int);
    assert(v2[v1.len() as int] == s);
}

pub proof fn lemma_stmts_prefix(v1: &Vec<Statement>, v2: &Vec<Statement>, n: int)
    requires
        0 <= n <= v1.len(),
        n <= v2.len(),
        forall|i: int| 0 <= i < n ==> v1@[i] == v2@[i],
    ensures
        stmts_model(v1, n) == stmts_model(v2, n),
    decreases n,
{
    if n > 0 {
        lemma_stmts_prefix(v1, v2, n - 1);
        assert(v1[n - 1] == v2[n - 1]);
    }
}

/// Pushing onto a pair vector extends its model by the new pair's model.
pub proof fn lemma_pairs_push(
    v1: &Vec<(Expression, Expression)>,
    v2: &Vec<(Expression, Expression)>,
    p: (Expression, Expression),
)
    requires
        v2@ == v1@.push(p),
    ensures
        pairs_model(v2, v2.len() as int) == pairs_model(v1, v1.len() as int).push(
            (expr_model(&p.0), expr_model(&p.1)),
        ),
{
    lemma_pairs_prefix(v1, v2, v1.len() as int);
    assert(v2[v1.len() as int] == p);
}

pub proof fn lemma_pairs_prefix(
    v1: &Vec<(Expression, Expression)>,
    v2: &Vec<(Expression, Expression)>,
    n: int,
)
    requires
        0 <= n <= v1.len(),
        n <= v2.len(),
        forall|i: int| 0 <= i < n ==> v1@[i] == v2@[i],
    ensures
        pairs_model(v1, n) == pairs_model(v2, n),
    decreases n,
{
    if n > 0 {
        lemma_pairs_prefix(v1, v2, n - 1);
        assert(v1[n - 1] == v2[n - 1]);
    }
}

/// The model of a vector has one entry per element, each the element's model.
pub proof fn lemma_exprs_index(v: &Vec<Expression>, n: int)
    requires
        0 <= n <= v.len(),
    ensures
        exprs_model(v, n).len() == n,
        forall|i: int| 0 <= i < n ==> #[trigger] exprs_model(v, n)[i] == expr_model(&v[i]),
    decreases n,
{
    if n > 0 {
        lemma_exprs_index(v, n - 1);
    }
}

pub proof fn lemma_stmts_index(v: &Vec<Statement>, n: int)
    requires
        0 <= n <= v.len(),
    ensures
        stmts_model(v, n).len() == n,
        forall|i: int| 0 <= i < n ==> #[trigger] stmts_model(v, n)[i] == stmt_model(&v[i]),
    decreases n,
{
    if n > 0 {
        lemma_stmts_index(v, n - 1);
    }
}

} // verus!
