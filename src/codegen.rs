//! The generator: a [`Program`] to POSIX shell text.
//!
//! The text of each construct is given by spec functions over the AST model
//! (`stmt_text`, `word`, `arith`, ...); [`generate`] is proved to produce
//! exactly `program_text(program.model())`. `None` marks a node that has no
//! shell form here: indexing, ranges and lengths.
//!
//! Conventions of the emitted text:
//! - a source variable `x` is the shell variable `__shard_x`;
//! - after each command its exit status is kept in `__shard_status`;
//! - booleans are `true`/`false`, null is the empty word, strings are
//!   single-quoted, and an array is the space-separated list of its
//!   elements (a map: of `key:value` words);
//! - conditions and operators are evaluated with `$(( ... ))`, where a
//!   boolean literal counts as 1 or 0;
//! - a function's parameters are bound from `$1`, `$2`, ...; a returned
//!   value is left in `__shard_return`;
//! - nested blocks are indented by two spaces.
use vstd::prelude::*;
use crate::ast::{
    block_model, expr_model, lemma_exprs_index, lemma_stmts_index, list_model, pairs_model,
    stmt_model, BinaryOperator, ExprM, Expression, LitM, Literal, Program, Statement, StmtM,
    UnaryOperator,
};
use crate::text::{
    chars_of, decimal, push_char, push_decimal, push_signed_decimal, push_str, signed_decimal,
};

verus! {

broadcast use vstd::seq::axiom_seq_index_decreases, vstd::std_specs::vec::axiom_vec_index_decreases;

/// A generation failure.
#[derive(Debug)]
pub enum CodegenError {
    UnsupportedNode { node_type: String },
    ParseError(String),
}

pub type CodegenResult<T> = Result<T, CodegenError>;

/// Both texts, one after the other, when both exist.
pub open spec fn cat(a: Option<Seq<char>>, b: Option<Seq<char>>) -> Option<Seq<char>> {
    match (a, b) {
        (Some(x), Some(y)) => Some(x + y),
        _ => None,
    }
}

pub open spec fn lit(s: &str) -> Option<Seq<char>> {
    Some(s@)
}

/// `s` inside single quotes: each quote becomes `'\''`.
pub open spec fn escape_single_quoted(s: Seq<char>) -> Seq<char>
    decreases s.len(),
{
    if s.len() == 0 {
        seq![]
    } else {
        escape_single_quoted(s.drop_last()) + if s.last() == '\'' {
            seq!['\'', '\\', '\'', '\'']
        } else {
            seq![s.last()]
        }
    }
}

/// `s` inside double quotes: a backslash before `"`, `\`, `$` and `` ` ``.
pub open spec fn escape_double_quoted(s: Seq<char>) -> Seq<char>
    decreases s.len(),
{
    if s.len() == 0 {
        seq![]
    } else {
        escape_double_quoted(s.drop_last()) + if s.last() == '"' || s.last() == '\\' || s.last()
            == '$' || s.last() == '`' {
            seq!['\\', s.last()]
        } else {
            seq![s.last()]
        }
    }
}

pub open spec fn var_name(n: Seq<char>) -> Seq<char> {
    "__shard_"@ + n
}

pub open spec fn op_text(op: BinaryOperator) -> Seq<char> {
    match op {
        BinaryOperator::Add => "+"@,
        BinaryOperator::Subtract => "-"@,
        BinaryOperator::Multiply => "*"@,
        BinaryOperator::Divide => "/"@,
        BinaryOperator::Modulo => "%"@,
        BinaryOperator::Equals => "=="@,
        BinaryOperator::NotEquals => "!="@,
        BinaryOperator::Less => "<"@,
        BinaryOperator::Greater => ">"@,
        BinaryOperator::LessEquals => "<="@,
        BinaryOperator::GreaterEquals => ">="@,
        BinaryOperator::And => "&&"@,
        BinaryOperator::Or => "||"@,
    }
}

/// Text of `e` as part of a double-quoted shell word.
pub open spec fn word(e: ExprM) -> Option<Seq<char>>
    decreases e, 0int,
{
    match e {
        ExprM::Literal(LitM::Integer(n)) => Some(signed_decimal(n as int)),
        ExprM::Literal(LitM::Boolean(b)) => if b {
            lit("true")
        } else {
            lit("false")
        },
        ExprM::Literal(LitM::Null) => Some(seq![]),
        ExprM::Literal(LitM::Text(s)) => Some(escape_double_quoted(s)),
        ExprM::Literal(LitM::Array(items)) => word_list(items, items.len() as int),
        ExprM::Literal(LitM::Dict(pairs)) => pair_list(pairs, pairs.len() as int),
        ExprM::Identifier(n) => Some("${"@ + var_name(n) + "}"@),
        ExprM::BinaryOp { op, left, right } => cat(
            cat(cat(cat(lit("$(("), arith(*left)), Some(" "@ + op_text(op) + " "@)), arith(*right)),
            lit("))"),
        ),
        ExprM::UnaryOp { op, operand } => cat(
            cat(
                if op == UnaryOperator::Negate {
                    lit("$((-")
                } else {
                    lit("$((!")
                },
                arith(*operand),
            ),
            lit("))"),
        ),
        ExprM::FunctionCall { name, args } => cat(
            cat(Some("$("@ + name), call_args(args, args.len() as int)),
            lit(")"),
        ),
        ExprM::InterpolatedString { parts } => part_list(parts, parts.len() as int),
        _ => None,
    }
}

/// Words of the first `n` expressions, separated by spaces.
pub open spec fn word_list(es: Seq<ExprM>, n: int) -> Option<Seq<char>>
    decreases es, n,
{
    if n <= 0 || n > es.len() {
        Some(seq![])
    } else if n == 1 {
        word(es[0])
    } else {
        cat(cat(word_list(es, n - 1), lit(" ")), word(es[n - 1]))
    }
}

/// Words of the first `n` pairs, as `key:value`, separated by spaces.
pub open spec fn pair_list(ps: Seq<(ExprM, ExprM)>, n: int) -> Option<Seq<char>>
    decreases ps, n,
{
    if n <= 0 || n > ps.len() {
        Some(seq![])
    } else {
        let pair = cat(cat(word(ps[n - 1].0), lit(":")), word(ps[n - 1].1));
        if n == 1 {
            pair
        } else {
            cat(cat(pair_list(ps, n - 1), lit(" ")), pair)
        }
    }
}

/// Words of the first `n` parts, run together.
pub open spec fn part_list(es: Seq<ExprM>, n: int) -> Option<Seq<char>>
    decreases es, n,
{
    if n <= 0 || n > es.len() {
        Some(seq![])
    } else {
        cat(part_list(es, n - 1), word(es[n - 1]))
    }
}

/// Arguments of a call: each as ` "word"`.
pub open spec fn call_args(es: Seq<ExprM>, n: int) -> Option<Seq<char>>
    decreases es, n,
{
    if n <= 0 || n > es.len() {
        Some(seq![])
    } else {
        cat(cat(cat(call_args(es, n - 1), lit(" \"")), word(es[n - 1])), lit("\""))
    }
}

/// Text of `e` inside `$(( ... ))`.
pub open spec fn arith(e: ExprM) -> Option<Seq<char>>
    decreases e, 1int,
{
    match e {
        ExprM::Literal(LitM::Boolean(b)) => if b {
            lit("1")
        } else {
            lit("0")
        },
        ExprM::Identifier(n) => Some(var_name(n)),
        ExprM::BinaryOp { op, left, right } => cat(
            cat(cat(cat(lit("("), arith(*left)), Some(" "@ + op_text(op) + " "@)), arith(*right)),
            lit(")"),
        ),
        ExprM::UnaryOp { op, operand } => cat(
            if op == UnaryOperator::Negate {
                lit("-")
            } else {
                lit("!")
            },
            arith(*operand),
        ),
        _ => word(e),
    }
}

/// Text of `e` as the value of an assignment.
pub open spec fn value(e: ExprM) -> Option<Seq<char>> {
    match e {
        ExprM::Literal(LitM::Integer(_)) => word(e),
        ExprM::Literal(LitM::Boolean(_)) => word(e),
        ExprM::Literal(LitM::Null) => word(e),
        ExprM::Literal(LitM::Text(s)) => Some("'"@ + escape_single_quoted(s) + "'"@),
        _ => cat(cat(lit("\""), word(e)), lit("\"")),
    }
}

/// Arguments of a command: each as a value, after a space.
pub open spec fn arg_list(es: Seq<ExprM>, n: int) -> Option<Seq<char>>
    decreases n,
{
    if n <= 0 || n > es.len() {
        Some(seq![])
    } else {
        cat(cat(arg_list(es, n - 1), lit(" ")), value(es[n - 1]))
    }
}

/// A condition: true when the expression evaluates to a nonzero number.
pub open spec fn condition(e: ExprM) -> Option<Seq<char>> {
    cat(cat(lit("[ $(("), arith(e)), lit(")) -ne 0 ]"))
}

/// Lines binding the first `n` parameters from the positional ones.
pub open spec fn param_lines(ps: Seq<Seq<char>>, n: int, ind: Seq<char>) -> Seq<char>
    decreases n,
{
    if n <= 0 || n > ps.len() {
        seq![]
    } else {
        param_lines(ps, n - 1, ind) + ind + var_name(ps[n - 1]) + "=\"${"@ + decimal(n as nat)
            + "}\"\n"@
    }
}

pub open spec fn deeper(ind: Seq<char>) -> Seq<char> {
    ind + "  "@
}

/// Lines of statement `s`, each starting with `ind`.
pub open spec fn stmt_text(s: StmtM, ind: Seq<char>) -> Option<Seq<char>>
    decreases s, 0int,
{
    match s {
        StmtM::Assignment { name, value: v } => cat(
            cat(Some(ind + var_name(name) + "="@), value(v)),
            lit("\n"),
        ),
        StmtM::Command { name, args } => cat(
            cat(Some(ind + name), arg_list(args, args.len() as int)),
            Some("\n"@ + ind + "__shard_status=$?\n"@),
        ),
        StmtM::If { condition: c, then_branch, else_branch } => cat(
            cat(
                cat(
                    cat(Some(ind + "if "@), condition(c)),
                    cat(lit("; then\n"), block_text(then_branch, then_branch.len() as int, deeper(ind))),
                ),
                match else_branch {
                    Some(b) => cat(Some(ind + "else\n"@), block_text(b, b.len() as int, deeper(ind))),
                    None => Some(seq![]),
                },
            ),
            Some(ind + "fi\n"@),
        ),
        StmtM::While { condition: c, body } => cat(
            cat(
                cat(Some(ind + "while "@), condition(c)),
                cat(lit("; do\n"), block_text(body, body.len() as int, deeper(ind))),
            ),
            Some(ind + "done\n"@),
        ),
        StmtM::For { variable, iterable, body } => cat(
            cat(
                cat(Some(ind + "for "@ + var_name(variable) + " in "@), word(iterable)),
                cat(lit("; do\n"), block_text(body, body.len() as int, deeper(ind))),
            ),
            Some(ind + "done\n"@),
        ),
        StmtM::FunctionDef { name, params, body, .. } => cat(
            Some(ind + name + "() {\n"@ + param_lines(params, params.len() as int, deeper(ind))),
            cat(block_text(body, body.len() as int, deeper(ind)), Some(ind + "}\n"@)),
        ),
        StmtM::Return { value: None } => Some(ind + "return\n"@),
        StmtM::Return { value: Some(v) } => cat(
            cat(Some(ind + "__shard_return="@), value(v)),
            Some("\n"@ + ind + "return 0\n"@),
        ),
        StmtM::Try { body, catch_var, catch_body } => cat(
            cat(
                Some(ind + "__shard_status=0\n"@),
                block_text(body, body.len() as int, ind),
            ),
            cat(
                Some(
                    ind + "if [ \"$__shard_status\" -ne 0 ]; then\n"@ + deeper(ind) + var_name(
                        catch_var,
                    ) + "=\"$__shard_status\"\n"@,
                ),
                cat(block_text(catch_body, catch_body.len() as int, deeper(ind)), Some(ind + "fi\n"@)),
            ),
        ),
        StmtM::Break => Some(ind + "break\n"@),
        StmtM::Continue => Some(ind + "continue\n"@),
        StmtM::ExpressionStatement(e) => cat(
            cat(Some(ind + ": \""@), word(e)),
            lit("\"\n"),
        ),
    }
}

/// Lines of the first `n` statements of `b`.
pub open spec fn block_text(b: Seq<StmtM>, n: int, ind: Seq<char>) -> Option<Seq<char>>
    decreases b, n,
{
    if n <= 0 || n > b.len() {
        Some(seq![])
    } else {
        cat(block_text(b, n - 1, ind), stmt_text(b[n - 1], ind))
    }
}

/// The first lines of every generated script.
pub open spec fn header() -> Seq<char> {
    "#!/bin/sh\n# Generated by Shard\n\n"@
}

/// The whole script for a program with model `p`.
pub open spec fn program_text(p: Seq<StmtM>) -> Option<Seq<char>> {
    cat(Some(header()), block_text(p, p.len() as int, seq![]))
}

proof fn lemma_word_list_none(es: Seq<ExprM>, k: int, n: int)
    requires
        1 <= k <= n <= es.len(),
        word_list(es, k) is None,
    ensures
        word_list(es, n) is None,
    decreases n - k,
{
    if k < n {
        lemma_word_list_none(es, k + 1, n);
    }
}

proof fn lemma_pair_list_none(ps: Seq<(ExprM, ExprM)>, k: int, n: int)
    requires
        1 <= k <= n <= ps.len(),
        pair_list(ps, k) is None,
    ensures
        pair_list(ps, n) is None,
    decreases n - k,
{
    if k < n {
        lemma_pair_list_none(ps, k + 1, n);
    }
}

proof fn lemma_part_list_none(es: Seq<ExprM>, k: int, n: int)
    requires
        1 <= k <= n <= es.len(),
        part_list(es, k) is None,
    ensures
        part_list(es, n) is None,
    decreases n - k,
{
    if k < n {
        lemma_part_list_none(es, k + 1, n);
    }
}

proof fn lemma_call_args_none(es: Seq<ExprM>, k: int, n: int)
    requires
        1 <= k <= n <= es.len(),
        call_args(es, k) is None,
    ensures
        call_args(es, n) is None,
    decreases n - k,
{
    if k < n {
        lemma_call_args_none(es, k + 1, n);
    }
}

proof fn lemma_arg_list_none(es: Seq<ExprM>, k: int, n: int)
    requires
        1 <= k <= n <= es.len(),
        arg_list(es, k) is None,
    ensures
        arg_list(es, n) is None,
    decreases n - k,
{
    if k < n {
        lemma_arg_list_none(es, k + 1, n);
    }
}

proof fn lemma_block_text_none(b: Seq<StmtM>, k: int, n: int, ind: Seq<char>)
    requires
        1 <= k <= n <= b.len(),
        block_text(b, k, ind) is None,
    ensures
        block_text(b, n, ind) is None,
    decreases n - k,
{
    if k < n {
        lemma_block_text_none(b, k + 1, n, ind);
    }
}

/// Appends `s` escaped for single quotes.
fn emit_single_quoted_body(out: &mut String, s: &String)
    ensures
        final(out)@ == old(out)@ + escape_single_quoted(s@),
{
    let cs = chars_of(s.as_str());
    let mut i: usize = 0;
    while i < cs.len()
        invariant
            i <= cs.len(),
            cs@ == s@,
            out@ == old(out)@ + escape_single_quoted(cs@.take(i as int)),
        decreases cs.len() - i,
    {
        let c = cs[i];
        if c == '\'' {
            push_str(out, "'\\''");
        } else {
            push_char(out, c);
        }
        proof {
            reveal_strlit("'\\''");
            let t = cs@.take(i + 1);
            assert(t.drop_last() =~= cs@.take(i as int));
            assert(t.last() == c);
        }
        i = i + 1;
        proof {
            assert(out@ =~= old(out)@ + escape_single_quoted(cs@.take(i as int)));
        }
    }
    assert(cs@.take(cs.len() as int) =~= s@);
}

/// Appends `s` escaped for double quotes.
fn emit_double_quoted_body(out: &mut String, s: &String)
    ensures
        final(out)@ == old(out)@ + escape_double_quoted(s@),
{
    let cs = chars_of(s.as_str());
    let mut i: usize = 0;
    while i < cs.len()
        invariant
            i <= cs.len(),
            cs@ == s@,
            out@ == old(out)@ + escape_double_quoted(cs@.take(i as int)),
        decreases cs.len() - i,
    {
        let c = cs[i];
        if c == '"' || c == '\\' || c == '$' || c == '`' {
            push_char(out, '\\');
        }
        push_char(out, c);
        proof {
            let t = cs@.take(i + 1);
            assert(t.drop_last() =~= cs@.take(i as int));
            assert(t.last() == c);
        }
        i = i + 1;
        proof {
            assert(out@ =~= old(out)@ + escape_double_quoted(cs@.take(i as int)));
        }
    }
    assert(cs@.take(cs.len() as int) =~= s@);
}

fn op_str(op: BinaryOperator) -> (r: &'static str)
    ensures
        r@ == op_text(op),
{
    match op {
        BinaryOperator::Add => "+",
        BinaryOperator::Subtract => "-",
        BinaryOperator::Multiply => "*",
        BinaryOperator::Divide => "/",
        BinaryOperator::Modulo => "%",
        BinaryOperator::Equals => "==",
        BinaryOperator::NotEquals => "!=",
        BinaryOperator::Less => "<",
        BinaryOperator::Greater => ">",
        BinaryOperator::LessEquals => "<=",
        BinaryOperator::GreaterEquals => ">=",
        BinaryOperator::And => "&&",
        BinaryOperator::Or => "||",
    }
}

/// `r` and the text appended to `out` are what the spec text `t` says.
pub open spec fn emitted(t: Option<Seq<char>>, r: CodegenResult<()>, before: Seq<char>, after: Seq<char>) -> bool {
    match t {
        Some(x) => r is Ok && after == before + x,
        None => unsupported_error(r),
    }
}

/// The kinds of node that have no shell form.
pub open spec fn unsupported_kind(k: Seq<char>) -> bool {
    k == "ArrayIndex"@ || k == "MapIndex"@ || k == "Range"@ || k == "Length"@
}

/// `r` is an unsupported-node error naming one of those kinds.
pub open spec fn unsupported_error<T>(r: CodegenResult<T>) -> bool {
    r matches Err(CodegenError::UnsupportedNode { node_type }) && unsupported_kind(node_type@)
}

fn unsupported(kind: &str) -> (r: CodegenResult<()>)
    requires
        unsupported_kind(kind@),
    ensures
        unsupported_error(r),
{
    Err(CodegenError::UnsupportedNode { node_type: kind.to_owned() })
}

#[verifier::rlimit(60)]
fn emit_word(e: &Expression, out: &mut String) -> (r: CodegenResult<()>)
    ensures
        emitted(word(expr_model(e)), r, old(out)@, final(out)@),
    decreases e, 0int,
{
    proof {
        reveal_with_fuel(expr_model, 2);
    }
    match e {
        Expression::Literal(Literal::Integer(n)) => {
            push_signed_decimal(out, *n);
            Ok(())
        },
        Expression::Literal(Literal::Boolean(b)) => {
            if *b {
                push_str(out, "true");
            } else {
                push_str(out, "false");
            }
            Ok(())
        },
        Expression::Literal(Literal::Null) => {
            assert(old(out)@ + Seq::<char>::empty() =~= old(out)@);
            Ok(())
        },
        Expression::Literal(Literal::String(s)) => {
            emit_double_quoted_body(out, s);
            Ok(())
        },
        Expression::Literal(Literal::Array(items)) => {
            proof {
                lemma_exprs_index(items, items.len() as int);
            }
            emit_word_list(items, out)
        },
        Expression::Literal(Literal::Dict(pairs)) => {
            proof {
                lemma_pairs_index(pairs, pairs.len() as int);
            }
            emit_pair_list(pairs, out)
        },
        Expression::Identifier(n) => {
            push_str(out, "${__shard_");
            push_str(out, n.as_str());
            push_str(out, "}");
            proof {
                assert(final(out)@ =~= old(out)@ + ("${"@ + var_name(n@) + "}"@)) by {
                    reveal_strlit("${__shard_");
                    reveal_strlit("${");
                    reveal_strlit("__shard_");
                }
            }
            Ok(())
        },
        Expression::BinaryOp { op, left, right } => {
            push_str(out, "$((");
            let ghost o1 = out@;
            match emit_arith(left, out) {
                Ok(()) => {},
                Err(err) => return Err(err),
            }
            push_str(out, " ");
            push_str(out, op_str(*op));
            push_str(out, " ");
            let ghost o2 = out@;
            match emit_arith(right, out) {
                Ok(()) => {},
                Err(err) => return Err(err),
            }
            push_str(out, "))");
            proof {
                let a = arith(expr_model(&**left))->Some_0;
                let b = arith(expr_model(&**right))->Some_0;
                assert(final(out)@ =~= old(out)@ + ("$(("@ + a + (" "@ + op_text(*op) + " "@) + b + "))"@));
            }
            Ok(())
        },
        Expression::UnaryOp { op, expr } => {
            if *op == UnaryOperator::Negate {
                push_str(out, "$((-");
            } else {
                push_str(out, "$((!");
            }
            match emit_arith(expr, out) {
                Ok(()) => {},
                Err(err) => return Err(err),
            }
            push_str(out, "))");
            proof {
                let a = arith(expr_model(&**expr))->Some_0;
                let h = if *op == UnaryOperator::Negate { "$((-"@ } else { "$((!"@ };
                assert(final(out)@ =~= old(out)@ + (h + a + "))"@));
            }
            Ok(())
        },
        Expression::FunctionCall { name, args } => {
            proof {
                lemma_exprs_index(args, args.len() as int);
            }
            push_str(out, "$(");
            push_str(out, name.as_str());
            match emit_call_args(args, out) {
                Ok(()) => {},
                Err(err) => return Err(err),
            }
            push_str(out, ")");
            proof {
                let a = call_args(list_model(args), args.len() as int)->Some_0;
                assert(final(out)@ =~= old(out)@ + ("$("@ + name@ + a + ")"@));
            }
            Ok(())
        },
        Expression::InterpolatedString { parts } => {
            proof {
                lemma_exprs_index(parts, parts.len() as int);
            }
            emit_part_list(parts, out)
        },
        Expression::ArrayIndex { .. } => unsupported("ArrayIndex"),
        Expression::MapIndex { .. } => unsupported("MapIndex"),
        Expression::Range { .. } => unsupported("Range"),
        Expression::Length { .. } => unsupported("Length"),
    }
}

fn emit_arith(e: &Expression, out: &mut String) -> (r: CodegenResult<()>)
    ensures
        emitted(arith(expr_model(e)), r, old(out)@, final(out)@),
    decreases e, 1int,
{
    proof {
        reveal_with_fuel(expr_model, 2);
    }
    match e {
        Expression::Literal(Literal::Boolean(b)) => {
            if *b {
                push_str(out, "1");
            } else {
                push_str(out, "0");
            }
            Ok(())
        },
        Expression::Identifier(n) => {
            push_str(out, "__shard_");
            push_str(out, n.as_str());
            assert(final(out)@ =~= old(out)@ + var_name(n@));
            Ok(())
        },
        Expression::BinaryOp { op, left, right } => {
            push_str(out, "(");
            match emit_arith(left, out) {
                Ok(()) => {},
                Err(err) => return Err(err),
            }
            push_str(out, " ");
            push_str(out, op_str(*op));
            push_str(out, " ");
            match emit_arith(right, out) {
                Ok(()) => {},
                Err(err) => return Err(err),
            }
            push_str(out, ")");
            proof {
                let a = arith(expr_model(&**left))->Some_0;
                let b = arith(expr_model(&**right))->Some_0;
                assert(final(out)@ =~= old(out)@ + ("("@ + a + (" "@ + op_text(*op) + " "@) + b + ")"@));
            }
            Ok(())
        },
        Expression::UnaryOp { op, expr } => {
            if *op == UnaryOperator::Negate {
                push_str(out, "-");
            } else {
                push_str(out, "!");
            }
            match emit_arith(expr, out) {
                Ok(()) => {},
                Err(err) => return Err(err),
            }
            proof {
                let a = arith(expr_model(&**expr))->Some_0;
                let h = if *op == UnaryOperator::Negate { "-"@ } else { "!"@ };
                assert(final(out)@ =~= old(out)@ + (h + a));
            }
            Ok(())
        },
        _ => emit_word(e, out),
    }
}

fn emit_word_list(es: &Vec<Expression>, out: &mut String) -> (r: CodegenResult<()>)
    ensures
        emitted(word_list(list_model(es), es.len() as int), r, old(out)@, final(out)@),
    decreases es, 0int,
{
    let ghost m = list_model(es);
    proof {
        lemma_exprs_index(es, es.len() as int);
    }
    let mut i: usize = 0;
    while i < es.len()
        invariant
            i <= es.len(),
            m == list_model(es),
            m.len() == es.len(),
            forall|k: int| 0 <= k < es.len() ==> #[trigger] m[k] == expr_model(&es[k]),
            word_list(m, i as int) is Some,
            out@ == old(out)@ + word_list(m, i as int)->Some_0,
        decreases es.len() - i,
    {
        let ghost before = out@;
        if i > 0 {
            push_str(out, " ");
        }
        let ghost mid = out@;
        match emit_word(&es[i], out) {
            Ok(()) => {},
            Err(err) => {
                proof {
                    lemma_word_list_none(m, i + 1, es.len() as int);
                }
                return Err(err);
            },
        }
        proof {
            if i == 0 {
                assert(out@ =~= old(out)@ + word_list(m, 1)->Some_0);
            } else {
                assert(out@ =~= old(out)@ + word_list(m, i + 1)->Some_0);
            }
        }
        i = i + 1;
    }
    Ok(())
}

fn emit_part_list(es: &Vec<Expression>, out: &mut String) -> (r: CodegenResult<()>)
    ensures
        emitted(part_list(list_model(es), es.len() as int), r, old(out)@, final(out)@),
    decreases es, 0int,
{
    let ghost m = list_model(es);
    proof {
        lemma_exprs_index(es, es.len() as int);
        assert(old(out)@ + Seq::<char>::empty() =~= old(out)@);
    }
    let mut i: usize = 0;
    while i < es.len()
        invariant
            i <= es.len(),
            m == list_model(es),
            m.len() == es.len(),
            forall|k: int| 0 <= k < es.len() ==> #[trigger] m[k] == expr_model(&es[k]),
            part_list(m, i as int) is Some,
            out@ == old(out)@ + part_list(m, i as int)->Some_0,
        decreases es.len() - i,
    {
        match emit_word(&es[i], out) {
            Ok(()) => {},
            Err(err) => {
                proof {
                    lemma_part_list_none(m, i + 1, es.len() as int);
                }
                return Err(err);
            },
        }
        proof {
            assert(out@ =~= old(out)@ + part_list(m, i + 1)->Some_0);
        }
        i = i + 1;
    }
    Ok(())
}

fn emit_call_args(es: &Vec<Expression>, out: &mut String) -> (r: CodegenResult<()>)
    ensures
        emitted(call_args(list_model(es), es.len() as int), r, old(out)@, final(out)@),
    decreases es, 0int,
{
    let ghost m = list_model(es);
    proof {
        lemma_exprs_index(es, es.len() as int);
        assert(old(out)@ + Seq::<char>::empty() =~= old(out)@);
    }
    let mut i: usize = 0;
    while i < es.len()
        invariant
            i <= es.len(),
            m == list_model(es),
            m.len() == es.len(),
            forall|k: int| 0 <= k < es.len() ==> #[trigger] m[k] == expr_model(&es[k]),
            call_args(m, i as int) is Some,
            out@ == old(out)@ + call_args(m, i as int)->Some_0,
        decreases es.len() - i,
    {
        push_str(out, " \"");
        match emit_word(&es[i], out) {
            Ok(()) => {},
            Err(err) => {
                proof {
                    lemma_call_args_none(m, i + 1, es.len() as int);
                }
                return Err(err);
            },
        }
        push_str(out, "\"");
        proof {
            assert(out@ =~= old(out)@ + call_args(m, i + 1)->Some_0);
        }
        i = i + 1;
    }
    Ok(())
}

fn emit_pair_list(ps: &Vec<(Expression, Expression)>, out: &mut String) -> (r: CodegenResult<()>)
    ensures
        emitted(pair_list(pairs_model(ps, ps.len() as int), ps.len() as int), r, old(out)@, final(out)@),
    decreases ps, 0int,
{
    let ghost m = pairs_model(ps, ps.len() as int);
    proof {
        lemma_pairs_index(ps, ps.len() as int);
        assert(old(out)@ + Seq::<char>::empty() =~= old(out)@);
    }
    let mut i: usize = 0;
    while i < ps.len()
        invariant
            i <= ps.len(),
            m == pairs_model(ps, ps.len() as int),
            m.len() == ps.len(),
            forall|k: int| 0 <= k < ps.len() ==> #[trigger] m[k] == (expr_model(&ps[k].0), expr_model(&ps[k].1)),
            pair_list(m, i as int) is Some,
            out@ == old(out)@ + pair_list(m, i as int)->Some_0,
        decreases ps.len() - i,
    {
        if i > 0 {
            push_str(out, " ");
        }
        proof {
            vstd::std_specs::vec::axiom_vec_index_decreases(*ps, i as int);
        }
        match emit_word(&ps[i].0, out) {
            Ok(()) => {},
            Err(err) => {
                proof {
                    lemma_pair_list_none(m, i + 1, ps.len() as int);
                }
                return Err(err);
            },
        }
        push_str(out, ":");
        match emit_word(&ps[i].1, out) {
            Ok(()) => {},
            Err(err) => {
                proof {
                    lemma_pair_list_none(m, i + 1, ps.len() as int);
                }
                return Err(err);
            },
        }
        proof {
            assert(out@ =~= old(out)@ + pair_list(m, i + 1)->Some_0);
        }
        i = i + 1;
    }
    Ok(())
}

proof fn lemma_pairs_index(v: &Vec<(Expression, Expression)>, n: int)
    requires
        0 <= n <= v.len(),
    ensures
        pairs_model(v, n).len() == n,
        forall|i: int|
            0 <= i < n ==> #[trigger] pairs_model(v, n)[i] == (expr_model(&v[i].0), expr_model(&v[i].1)),
    decreases n,
{
    if n > 0 {
        lemma_pairs_index(v, n - 1);
    }
}

fn emit_value(e: &Expression, out: &mut String) -> (r: CodegenResult<()>)
    ensures
        emitted(value(expr_model(e)), r, old(out)@, final(out)@),
{
    proof {
        reveal_with_fuel(expr_model, 2);
    }
    match e {
        Expression::Literal(Literal::Integer(_)) | Expression::Literal(Literal::Boolean(_))
        | Expression::Literal(Literal::Null) => emit_word(e, out),
        Expression::Literal(Literal::String(s)) => {
            push_str(out, "'");
            emit_single_quoted_body(out, s);
            push_str(out, "'");
            assert(final(out)@ =~= old(out)@ + ("'"@ + escape_single_quoted(s@) + "'"@));
            Ok(())
        },
        _ => {
            push_str(out, "\"");
            match emit_word(e, out) {
                Ok(()) => {},
                Err(err) => return Err(err),
            }
            push_str(out, "\"");
            proof {
                let w = word(expr_model(e))->Some_0;
                assert(final(out)@ =~= old(out)@ + ("\""@ + w + "\""@));
            }
            Ok(())
        },
    }
}

fn emit_arg_list(es: &Vec<Expression>, out: &mut String) -> (r: CodegenResult<()>)
    ensures
        emitted(arg_list(list_model(es), es.len() as int), r, old(out)@, final(out)@),
{
    let ghost m = list_model(es);
    proof {
        lemma_exprs_index(es, es.len() as int);
        assert(old(out)@ + Seq::<char>::empty() =~= old(out)@);
    }
    let mut i: usize = 0;
    while i < es.len()
        invariant
            i <= es.len(),
            m == list_model(es),
            m.len() == es.len(),
            forall|k: int| 0 <= k < es.len() ==> #[trigger] m[k] == expr_model(&es[k]),
            arg_list(m, i as int) is Some,
            out@ == old(out)@ + arg_list(m, i as int)->Some_0,
        decreases es.len() - i,
    {
        push_str(out, " ");
        match emit_value(&es[i], out) {
            Ok(()) => {},
            Err(err) => {
                proof {
                    lemma_arg_list_none(m, i + 1, es.len() as int);
                }
                return Err(err);
            },
        }
        proof {
            assert(out@ =~= old(out)@ + arg_list(m, i + 1)->Some_0);
        }
        i = i + 1;
    }
    Ok(())
}

fn emit_condition(e: &Expression, out: &mut String) -> (r: CodegenResult<()>)
    ensures
        emitted(condition(expr_model(e)), r, old(out)@, final(out)@),
{
    push_str(out, "[ $((");
    match emit_arith(e, out) {
        Ok(()) => {},
        Err(err) => return Err(err),
    }
    push_str(out, ")) -ne 0 ]");
    proof {
        let a = arith(expr_model(e))->Some_0;
        assert(final(out)@ =~= old(out)@ + ("[ $(("@ + a + ")) -ne 0 ]"@));
    }
    Ok(())
}

fn emit_param_lines(ps: &Vec<String>, ind: &String, out: &mut String)
    ensures
        final(out)@ == old(out)@ + param_lines(ps@.map_values(|x: String| x@), ps.len() as int, ind@),
{
    let ghost m = ps@.map_values(|x: String| x@);
    assert(old(out)@ + Seq::<char>::empty() =~= old(out)@);
    let mut i: usize = 0;
    while i < ps.len()
        invariant
            i <= ps.len(),
            m == ps@.map_values(|x: String| x@),
            out@ == old(out)@ + param_lines(m, i as int, ind@),
        decreases ps.len() - i,
    {
        push_str(out, ind.as_str());
        push_str(out, "__shard_");
        push_str(out, ps[i].as_str());
        push_str(out, "=\"${");
        push_decimal(out, (i + 1) as u64);
        push_str(out, "}\"\n");
        proof {
            assert(m[i as int] == ps@[i as int]@);
            assert(out@ =~= old(out)@ + param_lines(m, i + 1, ind@));
        }
        i = i + 1;
    }
}

fn emit_statement(s: &Statement, ind: &String, out: &mut String) -> (r: CodegenResult<()>)
    ensures
        emitted(stmt_text(stmt_model(s), ind@), r, old(out)@, final(out)@),
    decreases s, 2int,
{
    let mut inner = ind.clone();
    push_str(&mut inner, "  ");
    assert(inner@ == deeper(ind@));
    match s {
        Statement::Assignment { .. } => emit_assignment(s, ind, out),
        Statement::Command { .. } => emit_command(s, ind, out),
        Statement::If { .. } => emit_if(s, ind, &inner, out),
        Statement::While { .. } => emit_while(s, ind, &inner, out),
        Statement::For { .. } => emit_for(s, ind, &inner, out),
        Statement::FunctionDef { .. } => emit_function_def(s, ind, &inner, out),
        Statement::Return { .. } => emit_return(s, ind, out),
        Statement::Try { .. } => emit_try(s, ind, &inner, out),
        Statement::Break | Statement::Continue => {
            emit_jump(s, ind, out);
            Ok(())
        },
        Statement::ExpressionStatement(_) => emit_expression_statement(s, ind, out),
    }
}

fn emit_assignment(s: &Statement, ind: &String, out: &mut String) -> (r: CodegenResult<()>)
    requires
        s is Assignment,
    ensures
        emitted(stmt_text(stmt_model(s), ind@), r, old(out)@, final(out)@),
{
    match s {
        Statement::Assignment { name, value } => {
            assert(stmt_model(s) == (StmtM::Assignment { name: name@, value: expr_model(value) }));
            push_str(out, ind.as_str());
            push_str(out, "__shard_");
            push_str(out, name.as_str());
            push_str(out, "=");
            match emit_value(value, out) {
                Ok(()) => {},
                Err(err) => return Err(err),
            }
            push_str(out, "\n");
            proof {
                let v = crate::codegen::value(expr_model(value))->Some_0;
                assert(final(out)@ =~= old(out)@ + (ind@ + var_name(name@) + "="@ + v + "\n"@));
            }
            Ok(())
        },
        _ => Ok(()),
    }
}

fn emit_jump(s: &Statement, ind: &String, out: &mut String)
    requires
        s is Break || s is Continue,
    ensures
        stmt_text(stmt_model(s), ind@) is Some,
        final(out)@ == old(out)@ + stmt_text(stmt_model(s), ind@)->Some_0,
{
    push_str(out, ind.as_str());
    if matches!(s, Statement::Break) {
        push_str(out, "break\n");
        assert(final(out)@ =~= old(out)@ + (ind@ + "break\n"@));
    } else {
        push_str(out, "continue\n");
        assert(final(out)@ =~= old(out)@ + (ind@ + "continue\n"@));
    }
}

fn emit_command(s: &Statement, ind: &String, out: &mut String) -> (r: CodegenResult<()>)
    requires
        s is Command,
    ensures
        emitted(stmt_text(stmt_model(s), ind@), r, old(out)@, final(out)@),
{
    match s {
        Statement::Command { name, args } => {
            proof {
                lemma_exprs_index(args, args.len() as int);
            }
            push_str(out, ind.as_str());
            push_str(out, name.as_str());
            match emit_arg_list(args, out) {
                Ok(()) => {},
                Err(err) => return Err(err),
            }
            push_str(out, "\n");
            push_str(out, ind.as_str());
            push_str(out, "__shard_status=$?\n");
            proof {
                lemma_exprs_index(args, args.len() as int);
                let a = arg_list(list_model(args), args.len() as int)->Some_0;
                assert(final(out)@ =~= old(out)@ + (ind@ + name@ + a + ("\n"@ + ind@ + "__shard_status=$?\n"@)));
            }
            Ok(())
        },
        _ => Ok(()),
    }
}

fn emit_return(s: &Statement, ind: &String, out: &mut String) -> (r: CodegenResult<()>)
    requires
        s is Return,
    ensures
        emitted(stmt_text(stmt_model(s), ind@), r, old(out)@, final(out)@),
{
    match s {
        Statement::Return { value } => {
            match value {
                None => {
                    push_str(out, ind.as_str());
                    push_str(out, "return\n");
                    assert(final(out)@ =~= old(out)@ + (ind@ + "return\n"@));
                    Ok(())
                },
                Some(v) => {
                    push_str(out, ind.as_str());
                    push_str(out, "__shard_return=");
                    match emit_value(v, out) {
                        Ok(()) => {},
                        Err(err) => return Err(err),
                    }
                    push_str(out, "\n");
                    push_str(out, ind.as_str());
                    push_str(out, "return 0\n");
                    proof {
                        let t = crate::codegen::value(expr_model(v))->Some_0;
                        assert(final(out)@ =~= old(out)@ + (ind@ + "__shard_return="@ + t + ("\n"@ + ind@ + "return 0\n"@)));
                    }
                    Ok(())
                },
            }
        },
        _ => Ok(()),
    }
}

fn emit_expression_statement(s: &Statement, ind: &String, out: &mut String) -> (r: CodegenResult<()>)
    requires
        s is ExpressionStatement,
    ensures
        emitted(stmt_text(stmt_model(s), ind@), r, old(out)@, final(out)@),
{
    match s {
        Statement::ExpressionStatement(e) => {
            push_str(out, ind.as_str());
            push_str(out, ": \"");
            match emit_word(e, out) {
                Ok(()) => {},
                Err(err) => return Err(err),
            }
            push_str(out, "\"\n");
            proof {
                let w = word(expr_model(e))->Some_0;
                assert(final(out)@ =~= old(out)@ + (ind@ + ": \""@ + w + "\"\n"@));
            }
            Ok(())
        },
        _ => Ok(()),
    }
}

#[verifier::rlimit(60)]
fn emit_if(s: &Statement, ind: &String, inner: &String, out: &mut String) -> (r: CodegenResult<()>)
    requires
        s is If,
        inner@ == deeper(ind@),
    ensures
        emitted(stmt_text(stmt_model(s), ind@), r, old(out)@, final(out)@),
    decreases s, 1int,
{
    match s {
        Statement::If { condition, then_branch, else_branch } => {
            proof {
                lemma_stmts_index(then_branch, then_branch.len() as int);
            }
            push_str(out, ind.as_str());
            push_str(out, "if ");
            match emit_condition(condition, out) {
                Ok(()) => {},
                Err(err) => return Err(err),
            }
            push_str(out, "; then\n");
            match emit_block(then_branch, inner, out) {
                Ok(()) => {},
                Err(err) => return Err(err),
            }
            let ghost mid = out@;
            match else_branch {
                Some(b) => {
                    proof {
                        lemma_stmts_index(b, b.len() as int);
                    }
                    push_str(out, ind.as_str());
                    push_str(out, "else\n");
                    match emit_block(b, inner, out) {
                        Ok(()) => {},
                        Err(err) => return Err(err),
                    }
                },
                None => {},
            }
            push_str(out, ind.as_str());
            push_str(out, "fi\n");
            proof {
                let c = crate::codegen::condition(expr_model(condition))->Some_0;
                let tb = block_text(block_model(then_branch), then_branch.len() as int, deeper(ind@))->Some_0;
                let eb = match else_branch {
                    Some(b) => ind@ + "else\n"@ + block_text(block_model(b), b.len() as int, deeper(ind@))->Some_0,
                    None => Seq::<char>::empty(),
                };
                assert(final(out)@ =~= old(out)@ + (ind@ + "if "@ + c + ("; then\n"@ + tb) + eb + (ind@ + "fi\n"@)));
            }
            Ok(())
        },
        _ => Ok(()),
    }
}

#[verifier::rlimit(60)]
fn emit_while(s: &Statement, ind: &String, inner: &String, out: &mut String) -> (r: CodegenResult<()>)
    requires
        s is While,
        inner@ == deeper(ind@),
    ensures
        emitted(stmt_text(stmt_model(s), ind@), r, old(out)@, final(out)@),
    decreases s, 1int,
{
    match s {
        Statement::While { condition, body } => {
            proof {
                lemma_stmts_index(body, body.len() as int);
            }
            push_str(out, ind.as_str());
            push_str(out, "while ");
            match emit_condition(condition, out) {
                Ok(()) => {},
                Err(err) => return Err(err),
            }
            push_str(out, "; do\n");
            match emit_block(body, inner, out) {
                Ok(()) => {},
                Err(err) => return Err(err),
            }
            push_str(out, ind.as_str());
            push_str(out, "done\n");
            proof {
                let c = crate::codegen::condition(expr_model(condition))->Some_0;
                let tb = block_text(block_model(body), body.len() as int, deeper(ind@))->Some_0;
                assert(final(out)@ =~= old(out)@ + (ind@ + "while "@ + c + ("; do\n"@ + tb) + (ind@ + "done\n"@)));
            }
            Ok(())
        },
        _ => Ok(()),
    }
}

#[verifier::rlimit(60)]
fn emit_for(s: &Statement, ind: &String, inner: &String, out: &mut String) -> (r: CodegenResult<()>)
    requires
        s is For,
        inner@ == deeper(ind@),
    ensures
        emitted(stmt_text(stmt_model(s), ind@), r, old(out)@, final(out)@),
    decreases s, 1int,
{
    match s {
        Statement::For { variable, iterable, body } => {
            proof {
                lemma_stmts_index(body, body.len() as int);
            }
            push_str(out, ind.as_str());
            push_str(out, "for __shard_");
            push_str(out, variable.as_str());
            push_str(out, " in ");
            match emit_word(iterable, out) {
                Ok(()) => {},
                Err(err) => return Err(err),
            }
            push_str(out, "; do\n");
            match emit_block(body, inner, out) {
                Ok(()) => {},
                Err(err) => return Err(err),
            }
            push_str(out, ind.as_str());
            push_str(out, "done\n");
            proof {
                reveal_strlit("for __shard_");
                reveal_strlit("for ");
                reveal_strlit("__shard_");
                let w = word(expr_model(iterable))->Some_0;
                let tb = block_text(block_model(body), body.len() as int, deeper(ind@))->Some_0;
                assert("for __shard_"@ =~= "for "@ + "__shard_"@);
                assert(final(out)@ =~= old(out)@ + (ind@ + "for "@ + var_name(variable@) + " in "@ + w + ("; do\n"@ + tb) + (ind@ + "done\n"@)));
            }
            Ok(())
        },
        _ => Ok(()),
    }
}

#[verifier::rlimit(60)]
fn emit_function_def(s: &Statement, ind: &String, inner: &String, out: &mut String) -> (r: CodegenResult<()>)
    requires
        s is FunctionDef,
        inner@ == deeper(ind@),
    ensures
        emitted(stmt_text(stmt_model(s), ind@), r, old(out)@, final(out)@),
    decreases s, 1int,
{
    match s {
        Statement::FunctionDef { name, params, body, .. } => {
            proof {
                lemma_stmts_index(body, body.len() as int);
            }
            push_str(out, ind.as_str());
            push_str(out, name.as_str());
            push_str(out, "() {\n");
            emit_param_lines(params, inner, out);
            match emit_block(body, inner, out) {
                Ok(()) => {},
                Err(err) => return Err(err),
            }
            push_str(out, ind.as_str());
            push_str(out, "}\n");
            proof {
                let pl = param_lines(params@.map_values(|x: String| x@), params.len() as int, deeper(ind@));
                let tb = block_text(block_model(body), body.len() as int, deeper(ind@))->Some_0;
                assert(final(out)@ =~= old(out)@ + (ind@ + name@ + "() {\n"@ + pl + (tb + (ind@ + "}\n"@))));
            }
            Ok(())
        },
        _ => Ok(()),
    }
}

#[verifier::rlimit(60)]
fn emit_try(s: &Statement, ind: &String, inner: &String, out: &mut String) -> (r: CodegenResult<()>)
    requires
        s is Try,
        inner@ == deeper(ind@),
    ensures
        emitted(stmt_text(stmt_model(s), ind@), r, old(out)@, final(out)@),
    decreases s, 1int,
{
    match s {
        Statement::Try { body, catch_var, catch_body } => {
            proof {
                lemma_stmts_index(body, body.len() as int);
                lemma_stmts_index(catch_body, catch_body.len() as int);
            }
            push_str(out, ind.as_str());
            push_str(out, "__shard_status=0\n");
            match emit_block(body, ind, out) {
                Ok(()) => {},
                Err(err) => return Err(err),
            }
            push_str(out, ind.as_str());
            push_str(out, "if [ \"$__shard_status\" -ne 0 ]; then\n");
            push_str(out, inner.as_str());
            push_str(out, "__shard_");
            push_str(out, catch_var.as_str());
            push_str(out, "=\"$__shard_status\"\n");
            match emit_block(catch_body, inner, out) {
                Ok(()) => {},
                Err(err) => return Err(err),
            }
            push_str(out, ind.as_str());
            push_str(out, "fi\n");
            proof {
                let b1 = block_text(block_model(body), body.len() as int, ind@)->Some_0;
                let b2 = block_text(block_model(catch_body), catch_body.len() as int, deeper(ind@))->Some_0;
                assert(final(out)@ =~= old(out)@ + ((ind@ + "__shard_status=0\n"@) + b1 + ((ind@
                    + "if [ \"$__shard_status\" -ne 0 ]; then\n"@ + deeper(ind@) + var_name(catch_var@)
                    + "=\"$__shard_status\"\n"@) + (b2 + (ind@ + "fi\n"@)))));
            }
            Ok(())
        },
        _ => Ok(()),
    }
}

fn emit_block(b: &Vec<Statement>, ind: &String, out: &mut String) -> (r: CodegenResult<()>)
    ensures
        emitted(block_text(block_model(b), b.len() as int, ind@), r, old(out)@, final(out)@),
    decreases b, 0int,
{
    let ghost m = block_model(b);
    proof {
        lemma_stmts_index(b, b.len() as int);
        assert(old(out)@ + Seq::<char>::empty() =~= old(out)@);
    }
    let mut i: usize = 0;
    while i < b.len()
        invariant
            i <= b.len(),
            m == block_model(b),
            m.len() == b.len(),
            forall|k: int| 0 <= k < b.len() ==> #[trigger] m[k] == stmt_model(&b[k]),
            block_text(m, i as int, ind@) is Some,
            out@ == old(out)@ + block_text(m, i as int, ind@)->Some_0,
        decreases b.len() - i,
    {
        match emit_statement(&b[i], ind, out) {
            Ok(()) => {},
            Err(err) => {
                proof {
                    lemma_block_text_none(m, i + 1, b.len() as int, ind@);
                }
                return Err(err);
            },
        }
        proof {
            assert(out@ =~= old(out)@ + block_text(m, i + 1, ind@)->Some_0);
        }
        i = i + 1;
    }
    Ok(())
}

/// Generates the shell script of `program`: the text of [`program_text`],
/// or an unsupported-node error when it has none.
pub fn generate(program: &Program) -> (r: CodegenResult<String>)
    ensures
        match program_text(program.model()) {
            Some(t) => r is Ok && r->Ok_0@ == t,
            None => unsupported_error(r),
        },
{
    let mut out = String::new();
    push_str(&mut out, "#!/bin/sh\n# Generated by Shard\n\n");
    let ind = String::new();
    proof {
        lemma_stmts_index(&program.0, program.0.len() as int);
        assert(out@ =~= header());
    }
    match emit_block(&program.0, &ind, &mut out) {
        Ok(()) => {
            assert(ind@ =~= Seq::<char>::empty());
            Ok(out)
        },
        Err(e) => {
            assert(ind@ =~= Seq::<char>::empty());
            Err(e)
        },
    }
}

} // verus!
