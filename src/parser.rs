//! The parser: a token sequence to a [`Program`].
//!
//! The grammar is written down as spec functions over the token sequence
//! (`statement`, `binary`, `primary`, ...), each giving the model of what is
//! parsed at a position and the position after it, or the first failure: a
//! message naming what was expected and the byte offset of the offending
//! token. The executable parser is proved to compute exactly these results,
//! errors included.
use vstd::prelude::*;
use crate::ast::{
    block_model, expr_model, exprs_model, lemma_exprs_push, lemma_pairs_push, lemma_stmts_push,
    list_model, pairs_model, stmt_model, BinaryOperator, ExprM, Expression, LitM, Literal, Program,
    Statement, StmtM, UnaryOperator,
};
use crate::lexer::{SpannedToken, TokenType};
use crate::text::{
    chars_of, decimal, digits_value, is_alphabetic, is_alphanumeric, is_digit, push_char, push_decimal,
    push_str,
    unicode_alphabetic, unicode_alphanumeric,
};

verus! {

/// A parse failure, with a message naming what was expected.
#[derive(Debug)]
pub enum ParserError {
    ParseError(String),
    Other(String),
}

pub type ParserResult<T> = Result<T, ParserError>;

/// A parse failure: what was expected, and the byte offset where the
/// offending token starts.
pub struct Fault {
    pub msg: Seq<char>,
    pub offset: nat,
}

/// Byte offset of the token at `p`: where it starts, or where the tokens end
/// when `p` is past them.
pub open spec fn offset_at(t: Seq<SpannedToken>, p: int) -> nat {
    if 0 <= p < t.len() {
        t[p].0 as nat
    } else if t.len() > 0 {
        t[t.len() - 1].2 as nat
    } else {
        0
    }
}

/// The failure `msg` at the token at `p`.
pub open spec fn fault(t: Seq<SpannedToken>, p: int, msg: &str) -> Fault {
    Fault { msg: msg@, offset: offset_at(t, p) }
}

/// The message a failure is reported with.
pub open spec fn fault_text(f: Fault) -> Seq<char> {
    f.msg + " at position "@ + decimal(f.offset)
}

/// `e` is the error that reports `f`.
pub open spec fn error_is(e: ParserError, f: Fault) -> bool {
    e matches ParserError::Other(m) && m@ == fault_text(f)
}

/// What a grammar rule gives: a value and the position after it, or failure.
pub type Parsed<T> = Result<(T, int), Fault>;

pub open spec fn kind_at(t: Seq<SpannedToken>, p: int) -> TokenType {
    if 0 <= p < t.len() {
        t[p].1.token_type
    } else {
        TokenType::EOF
    }
}

/// The text a token carries, or the empty text when it carries none.
pub open spec fn text_at(t: Seq<SpannedToken>, p: int) -> Seq<char> {
    if 0 <= p < t.len() {
        match t[p].1.value {
            Some(v) => v@,
            None => seq![],
        }
    } else {
        seq![]
    }
}

/// There is a token at `p` and it has kind `k`.
pub open spec fn at(t: Seq<SpannedToken>, p: int, k: TokenType) -> bool {
    0 <= p < t.len() && t[p].1.token_type == k
}

/// There is an identifier at `p` whose text is `w`.
pub open spec fn word_at(t: Seq<SpannedToken>, p: int, w: Seq<char>) -> bool {
    at(t, p, TokenType::Identifier) && text_at(t, p) == w
}

/// Position after an optional newline at `p`.
pub open spec fn skip_newline(t: Seq<SpannedToken>, p: int) -> int {
    if at(t, p, TokenType::Newline) {
        p + 1
    } else {
        p
    }
}

/// Position after any run of newlines at `p`.
pub open spec fn skip_newlines(t: Seq<SpannedToken>, p: int) -> int
    decreases t.len() - p,
{
    if 0 <= p && at(t, p, TokenType::Newline) {
        skip_newlines(t, p + 1)
    } else {
        p
    }
}

pub open spec fn all_digits(d: Seq<char>) -> bool {
    forall|i: int| 0 <= i < d.len() ==> is_digit(#[trigger] d[i])
}

/// Value of an integer literal's text: an optional sign and decimal digits,
/// in the range of `i64`; any other text has value 0.
pub open spec fn int_value(s: Seq<char>) -> i64 {
    let neg = s.len() > 0 && s[0] == '-';
    let d = if s.len() > 0 && (s[0] == '+' || s[0] == '-') {
        s.drop_first()
    } else {
        s
    };
    let v = if neg {
        -digits_value(d)
    } else {
        digits_value(d)
    };
    if d.len() > 0 && all_digits(d) && i64::MIN <= v <= i64::MAX {
        v as i64
    } else {
        0
    }
}

pub open spec fn word_true() -> Seq<char> {
    seq!['t', 'r', 'u', 'e']
}

/// The operator that a token of kind `k` stands for at precedence level
/// `level`: 8 `or`, 7 `and`, 6 equality, 5 comparison, 4 additive,
/// 3 multiplicative.
pub open spec fn level_op(k: TokenType, level: nat) -> Option<BinaryOperator> {
    if level == 8 && k == TokenType::Or {
        Some(BinaryOperator::Or)
    } else if level == 7 && k == TokenType::And {
        Some(BinaryOperator::And)
    } else if level == 6 && k == TokenType::EqEq {
        Some(BinaryOperator::Equals)
    } else if level == 6 && k == TokenType::NotEq {
        Some(BinaryOperator::NotEquals)
    } else if level == 5 && k == TokenType::Less {
        Some(BinaryOperator::Less)
    } else if level == 5 && k == TokenType::Greater {
        Some(BinaryOperator::Greater)
    } else if level == 5 && k == TokenType::LessEq {
        Some(BinaryOperator::LessEquals)
    } else if level == 5 && k == TokenType::GreaterEq {
        Some(BinaryOperator::GreaterEquals)
    } else if level == 4 && k == TokenType::Plus {
        Some(BinaryOperator::Add)
    } else if level == 4 && k == TokenType::Minus {
        Some(BinaryOperator::Subtract)
    } else if level == 3 && k == TokenType::Star {
        Some(BinaryOperator::Multiply)
    } else if level == 3 && k == TokenType::Slash {
        Some(BinaryOperator::Divide)
    } else if level == 3 && k == TokenType::Percent {
        Some(BinaryOperator::Modulo)
    } else {
        None
    }
}

/// `q` lies after `p`, within the tokens.
pub open spec fn advanced(t: Seq<SpannedToken>, p: int, q: int) -> bool {
    p < q <= t.len()
}

/// A general expression: the lowest precedence level.
pub open spec fn expression(t: Seq<SpannedToken>, p: int) -> Parsed<ExprM>
    decreases t.len() - p, 18nat,
{
    binary(t, p, 8)
}

/// The operand of precedence level `level`.
pub open spec fn operand(t: Seq<SpannedToken>, p: int, level: nat) -> Parsed<ExprM>
    decreases t.len() - p, 2 * level,
{
    if level < 3 {
        Err(fault(t, p, "Unexpected end of input"))
    } else if level == 3 {
        unary(t, p)
    } else {
        binary(t, p, (level - 1) as nat)
    }
}

/// A left-associative chain of operators of level `level` (3 to 8).
pub open spec fn binary(t: Seq<SpannedToken>, p: int, level: nat) -> Parsed<ExprM>
    decreases t.len() - p, 2 * level + 1,
{
    if p < 0 || p > t.len() || level < 3 || level > 8 {
        Err(fault(t, p, "Unexpected end of input"))
    } else {
        match operand(t, p, level) {
            Ok((l, q)) => if advanced(t, p, q) {
                binary_rest(t, q, level, l)
            } else {
                Err(fault(t, p, "Unexpected end of input"))
            },
            Err(f) => Err(f),
        }
    }
}

/// The rest of a chain of level `level` after its left part `l`.
pub open spec fn binary_rest(t: Seq<SpannedToken>, p: int, level: nat, l: ExprM) -> Parsed<ExprM>
    decreases t.len() - p, 2 * level + 1,
{
    if p < 0 || p > t.len() || level < 3 || level > 8 {
        Err(fault(t, p, "Unexpected end of input"))
    } else if p < t.len() && level_op(t[p].1.token_type, level) is Some {
        let op = level_op(t[p].1.token_type, level)->Some_0;
        match operand(t, p + 1, level) {
            Ok((r, q)) => if advanced(t, p, q) {
                binary_rest(
                    t,
                    q,
                    level,
                    ExprM::BinaryOp { op, left: Box::new(l), right: Box::new(r) },
                )
            } else {
                Err(fault(t, p, "Unexpected end of input"))
            },
            Err(f) => Err(f),
        }
    } else {
        Ok((l, p))
    }
}

/// A prefix `-` or `not` applied to a unary expression, or a primary one.
pub open spec fn unary(t: Seq<SpannedToken>, p: int) -> Parsed<ExprM>
    decreases t.len() - p, 2nat,
{
    if p < 0 || p >= t.len() {
        Err(fault(t, p, "Unexpected end of input"))
    } else if at(t, p, TokenType::Minus) || at(t, p, TokenType::Not) {
        let op = if at(t, p, TokenType::Minus) {
            UnaryOperator::Negate
        } else {
            UnaryOperator::Not
        };
        match unary(t, p + 1) {
            Ok((e, q)) => Ok((ExprM::UnaryOp { op, operand: Box::new(e) }, q)),
            Err(f) => Err(f),
        }
    } else {
        primary(t, p)
    }
}

/// A character that may start a placeholder's variable name.
pub open spec fn name_start(c: char) -> bool {
    unicode_alphabetic(c) || c == '_'
}

/// A character that may continue a placeholder's variable name.
pub open spec fn name_char(c: char) -> bool {
    unicode_alphanumeric(c) || c == '_'
}

/// End of the variable name that starts at `i`.
pub open spec fn name_end(s: Seq<char>, i: int) -> int
    decreases s.len() - i,
{
    if 0 <= i < s.len() && name_char(s[i]) {
        name_end(s, i + 1)
    } else {
        i
    }
}

/// The placeholder that starts at `i`, if any: `$name`, or `{name}`. It
/// gives the name and the index after the placeholder.
pub open spec fn placeholder_at(s: Seq<char>, i: int) -> Option<(Seq<char>, int)> {
    if 0 <= i && i + 1 < s.len() && (s[i] == '$' || s[i] == '{') && name_start(s[i + 1]) {
        let e = name_end(s, i + 1);
        if s[i] == '$' {
            Some((s.subrange(i + 1, e), e))
        } else if e < s.len() && s[e] == '}' {
            Some((s.subrange(i + 1, e), e + 1))
        } else {
            None
        }
    } else {
        None
    }
}

/// `parts` followed by the literal text `lit`, when there is any.
pub open spec fn flush(parts: Seq<ExprM>, lit: Seq<char>) -> Seq<ExprM> {
    if lit.len() == 0 {
        parts
    } else {
        parts.push(ExprM::Literal(LitM::Text(lit)))
    }
}

/// The parts of a double-quoted string from index `i`: runs of literal text
/// and the variables that placeholders name, in order.
pub open spec fn split_parts(s: Seq<char>, i: int, lit: Seq<char>, parts: Seq<ExprM>) -> Seq<ExprM>
    decreases s.len() - i,
{
    if i < 0 || i >= s.len() {
        flush(parts, lit)
    } else {
        match placeholder_at(s, i) {
            Some((name, e)) => if i < e <= s.len() {
                split_parts(s, e, seq![], flush(parts, lit).push(ExprM::Identifier(name)))
            } else {
                flush(parts, lit)
            },
            None => split_parts(s, i + 1, lit.push(s[i]), parts),
        }
    }
}

/// Whether a placeholder starts at or after index `i`.
pub open spec fn has_placeholder(s: Seq<char>, i: int) -> bool
    decreases s.len() - i,
{
    if i < 0 || i >= s.len() {
        false
    } else if placeholder_at(s, i) is Some {
        true
    } else {
        has_placeholder(s, i + 1)
    }
}

/// A double-quoted string: its parts when it holds a placeholder, else the
/// plain string.
pub open spec fn interpolated(s: Seq<char>) -> ExprM {
    if has_placeholder(s, 0) {
        ExprM::InterpolatedString { parts: split_parts(s, 0, seq![], seq![]) }
    } else {
        ExprM::Literal(LitM::Text(s))
    }
}

/// A literal, an identifier or call, an array or map literal, or a
/// parenthesised expression.
pub open spec fn primary(t: Seq<SpannedToken>, p: int) -> Parsed<ExprM>
    decreases t.len() - p, 1nat,
{
    if p < 0 || p >= t.len() {
        Err(fault(t, p, "Unexpected end of input"))
    } else {
        let k = t[p].1.token_type;
        let text = text_at(t, p);
        if k == TokenType::Integer {
            Ok((ExprM::Literal(LitM::Integer(int_value(text))), p + 1))
        } else if k == TokenType::Boolean {
            Ok((ExprM::Literal(LitM::Boolean(text == word_true())), p + 1))
        } else if k == TokenType::Null {
            Ok((ExprM::Literal(LitM::Null), p + 1))
        } else if k == TokenType::String {
            Ok((ExprM::Literal(LitM::Text(text)), p + 1))
        } else if k == TokenType::InterpolatedString {
            Ok((interpolated(text), p + 1))
        } else if k == TokenType::Identifier {
            if at(t, p + 1, TokenType::LParen) {
                match arguments(t, p + 2, seq![]) {
                    Ok((args, q)) => Ok((ExprM::FunctionCall { name: text, args }, q)),
                    Err(f) => Err(f),
                }
            } else {
                Ok((ExprM::Identifier(text), p + 1))
            }
        } else if k == TokenType::LBracket {
            match elements(t, p + 1, seq![]) {
                Ok((items, q)) => Ok((ExprM::Literal(LitM::Array(items)), q)),
                Err(f) => Err(f),
            }
        } else if k == TokenType::LBrace {
            match entries(t, p + 1, seq![]) {
                Ok((items, q)) => Ok((ExprM::Literal(LitM::Dict(items)), q)),
                Err(f) => Err(f),
            }
        } else if k == TokenType::LParen {
            match expression(t, p + 1) {
                Ok((e, q)) => if at(t, q, TokenType::RParen) {
                    Ok((e, q + 1))
                } else {
                    Err(fault(t, q, "Expected ')'"))
                },
                Err(f) => Err(f),
            }
        } else {
            Err(fault(t, p, "Unexpected token in expression"))
        }
    }
}

/// What a list closed by `close` expects when it is cut off.
pub open spec fn list_closer(close: TokenType) -> &'static str {
    if close == TokenType::RParen {
        "Expected ')' or argument"
    } else {
        "Expected ']' or element"
    }
}

/// A comma-separated list of expressions closed by `close`, with `acc` read
/// so far; a separating comma may be left out and a trailing one is
/// accepted. A newline or the end-of-input marker before the closer fails.
pub open spec fn expr_list(t: Seq<SpannedToken>, p: int, close: TokenType, acc: Seq<ExprM>) -> Parsed<Seq<ExprM>>
    decreases t.len() - p, 19nat,
{
    if p < 0 || p > t.len() {
        Err(fault(t, p, "Unexpected end of input"))
    } else if p == t.len() {
        Ok((acc, p))
    } else if at(t, p, close) {
        Ok((acc, p + 1))
    } else if at(t, p, TokenType::Newline) || at(t, p, TokenType::EOF) {
        Err(fault(t, p, list_closer(close)))
    } else {
        match expression(t, p) {
            Ok((e, q)) => if advanced(t, p, q) {
                if at(t, q, TokenType::Comma) {
                    expr_list(t, q + 1, close, acc.push(e))
                } else {
                    expr_list(t, q, close, acc.push(e))
                }
            } else {
                Err(fault(t, p, "Unexpected end of input"))
            },
            Err(f) => Err(f),
        }
    }
}

/// The arguments of a call, after its `(`.
pub open spec fn arguments(t: Seq<SpannedToken>, p: int, acc: Seq<ExprM>) -> Parsed<Seq<ExprM>>
    decreases t.len() - p, 20nat,
{
    expr_list(t, p, TokenType::RParen, acc)
}

/// The elements of an array literal, after its `[`.
pub open spec fn elements(t: Seq<SpannedToken>, p: int, acc: Seq<ExprM>) -> Parsed<Seq<ExprM>>
    decreases t.len() - p, 20nat,
{
    expr_list(t, p, TokenType::RBracket, acc)
}

/// The `key: value` entries of a map literal, after its `{`.
pub open spec fn entries(t: Seq<SpannedToken>, p: int, acc: Seq<(ExprM, ExprM)>) -> Parsed<Seq<(ExprM, ExprM)>>
    decreases t.len() - p, 19nat,
{
    if p < 0 || p > t.len() {
        Err(fault(t, p, "Unexpected end of input"))
    } else if p == t.len() {
        Ok((acc, p))
    } else if at(t, p, TokenType::RBrace) {
        Ok((acc, p + 1))
    } else if at(t, p, TokenType::Newline) || at(t, p, TokenType::EOF) {
        Err(fault(t, p, "Expected '}' or key"))
    } else {
        match expression(t, p) {
            Ok((k, q)) => if advanced(t, p, q) && at(t, q, TokenType::Colon) {
                match expression(t, q + 1) {
                    Ok((v, q2)) => if advanced(t, q, q2) {
                        if at(t, q2, TokenType::Comma) {
                            entries(t, q2 + 1, acc.push((k, v)))
                        } else {
                            entries(t, q2, acc.push((k, v)))
                        }
                    } else {
                        Err(fault(t, p, "Unexpected end of input"))
                    },
                    Err(f) => Err(f),
                }
            } else {
                Err(fault(t, q, "Expected ':' after key"))
            },
            Err(f) => Err(f),
        }
    }
}

/// The token at `p` starts where the one before it ends: nothing stands
/// between them in the source.
pub open spec fn joined(t: Seq<SpannedToken>, p: int) -> bool {
    0 < p < t.len() && t[p].0 == t[p - 1].2
}

/// Text of a command-line flag: identifiers that start with an alphanumeric
/// character are appended to `acc` while each stands right against the
/// token before it.
pub open spec fn flag_rest(t: Seq<SpannedToken>, p: int, acc: Seq<char>) -> (Seq<char>, int)
    decreases t.len() - p,
{
    if joined(t, p) && t[p].1.token_type == TokenType::Identifier && t[p].1.value is Some
        && text_at(t, p).len() > 0 && unicode_alphanumeric(text_at(t, p)[0]) {
        flag_rest(t, p + 1, acc + text_at(t, p))
    } else {
        (acc, p)
    }
}

/// Text of a path after a `/`: the identifier right against that `/`, and
/// then, while a `/` stands right against it and is followed by another
/// identifier, that `/` and the rest of the path.
pub open spec fn path_rest(t: Seq<SpannedToken>, p: int, acc: Seq<char>) -> (Seq<char>, int)
    decreases t.len() - p,
{
    if joined(t, p) && t[p].1.token_type == TokenType::Identifier && t[p].1.value is Some {
        let acc2 = acc + text_at(t, p);
        if p + 2 < t.len() && kind_at(t, p + 1) == TokenType::Slash && joined(t, p + 1) && kind_at(
            t,
            p + 2,
        ) == TokenType::Identifier {
            path_rest(t, p + 2, acc2.push('/'))
        } else {
            (acc2, p + 1)
        }
    } else {
        (acc, p)
    }
}

/// One argument of a command: a flag `-name`, a path `/a/b`, or a primary
/// expression of the simple kinds.
pub open spec fn command_argument(t: Seq<SpannedToken>, p: int) -> Parsed<ExprM>
    decreases t.len() - p, 21nat,
{
    if p < 0 || p >= t.len() {
        Err(fault(t, p, "Unexpected end of input"))
    } else {
        let k = t[p].1.token_type;
        if k == TokenType::Integer || k == TokenType::Boolean || k == TokenType::Null || k
            == TokenType::String || k == TokenType::InterpolatedString || k
            == TokenType::Identifier {
            primary(t, p)
        } else if k == TokenType::Minus {
            let (v, q) = flag_rest(t, p + 1, seq!['-']);
            Ok((ExprM::Literal(LitM::Text(v)), q))
        } else if k == TokenType::Slash {
            let (v, q) = path_rest(t, p + 1, seq!['/']);
            Ok((ExprM::Literal(LitM::Text(v)), q))
        } else {
            Err(fault(t, p, "Unexpected token in command argument"))
        }
    }
}

/// Arguments of a command up to a newline, a `}` or the end.
pub open spec fn command_arguments(t: Seq<SpannedToken>, p: int, acc: Seq<ExprM>) -> Parsed<Seq<ExprM>>
    decreases t.len() - p, 22nat,
{
    if p < 0 || p > t.len() {
        Err(fault(t, p, "Unexpected end of input"))
    } else if p == t.len() || at(t, p, TokenType::Newline) || at(t, p, TokenType::EOF) || at(
        t,
        p,
        TokenType::RBrace,
    ) {
        Ok((acc, p))
    } else {
        match command_argument(t, p) {
            Ok((a, q)) => if advanced(t, p, q) {
                command_arguments(t, q, acc.push(a))
            } else {
                Err(fault(t, p, "Unexpected end of input"))
            },
            Err(f) => Err(f),
        }
    }
}

/// A braced block from `p`, its `{` consumed: the statements up to the `}`
/// (which is left in place) and the position of that `}`.
pub open spec fn block(t: Seq<SpannedToken>, p: int) -> Parsed<Seq<StmtM>>
    decreases t.len() - p, 25nat,
{
    let p1 = skip_newlines(t, p);
    if 0 <= p <= p1 <= t.len() {
        block_items(t, p1, seq![])
    } else {
        Err(fault(t, p, "Unexpected end of input"))
    }
}

pub open spec fn block_items(t: Seq<SpannedToken>, p: int, acc: Seq<StmtM>) -> Parsed<Seq<StmtM>>
    decreases t.len() - p, 24nat,
{
    if p < 0 || p > t.len() {
        Err(fault(t, p, "Unexpected end of input"))
    } else if p == t.len() || at(t, p, TokenType::RBrace) || at(t, p, TokenType::EOF) {
        Ok((acc, p))
    } else {
        match statement(t, p) {
            Ok((s, q)) => if advanced(t, p, q) {
                block_items(
                    t,
                    q,
                    match s {
                        Some(x) => acc.push(x),
                        None => acc,
                    },
                )
            } else {
                Err(fault(t, p, "Unexpected end of input"))
            },
            Err(f) => Err(f),
        }
    }
}

/// A `{ ... }` body at `p`, then an optional newline; `open` and `close`
/// are the failures for a missing `{` and a missing `}`.
pub open spec fn braced(t: Seq<SpannedToken>, p: int, open: &str, close: &str) -> Parsed<Seq<StmtM>>
    decreases t.len() - p, 26nat,
{
    if 0 <= p && at(t, p, TokenType::LBrace) {
        match block(t, p + 1) {
            Ok((b, q)) => if p < q <= t.len() && at(t, q, TokenType::RBrace) {
                Ok((b, skip_newline(t, q + 1)))
            } else {
                Err(fault(t, q, close))
            },
            Err(f) => Err(f),
        }
    } else {
        Err(fault(t, p, open))
    }
}

/// `if COND { ... }` with an optional `else { ... }` or `else if ...`,
/// an `else if` giving a nested `If` as the only statement of the else branch.
pub open spec fn if_stmt(t: Seq<SpannedToken>, p: int) -> Parsed<StmtM>
    decreases t.len() - p, 22nat,
{
    if p < 0 || p >= t.len() {
        Err(fault(t, p, "Unexpected end of input"))
    } else {
        match expression(t, p + 1) {
            Ok((c, q1)) => {
                let q2 = skip_newline(t, q1);
                if advanced(t, p, q1) {
                    match braced(t, q2, "Expected '{' after if condition", "Expected '}' after if block") {
                        Ok((body, q4)) => if q2 < q4 <= t.len() && word_at(t, q4, "else"@) {
                            let q5 = skip_newline(t, q4 + 1);
                            if word_at(t, q5, "if"@) {
                                match if_stmt(t, q5) {
                                    Ok((n, q6)) => Ok(
                                        (
                                            StmtM::If {
                                                condition: c,
                                                then_branch: body,
                                                else_branch: Some(seq![n]),
                                            },
                                            q6,
                                        ),
                                    ),
                                    Err(f) => Err(f),
                                }
                            } else {
                                match braced(t, q5, "Expected '{' after else", "Expected '}' after else block") {
                                    Ok((eb, q6)) => Ok(
                                        (
                                            StmtM::If {
                                                condition: c,
                                                then_branch: body,
                                                else_branch: Some(eb),
                                            },
                                            q6,
                                        ),
                                    ),
                                    Err(f) => Err(f),
                                }
                            }
                        } else {
                            Ok((StmtM::If { condition: c, then_branch: body, else_branch: None }, q4))
                        },
                        Err(f) => Err(f),
                    }
                } else {
                    Err(fault(t, p, "Unexpected end of input"))
                }
            },
            Err(f) => Err(f),
        }
    }
}

/// `while COND { ... }`.
pub open spec fn while_stmt(t: Seq<SpannedToken>, p: int) -> Parsed<StmtM>
    decreases t.len() - p, 22nat,
{
    if p < 0 || p >= t.len() {
        Err(fault(t, p, "Unexpected end of input"))
    } else {
        match expression(t, p + 1) {
            Ok((c, q1)) => if advanced(t, p, q1) {
                match braced(
                    t,
                    skip_newline(t, q1),
                    "Expected '{' after while condition",
                    "Expected '}' after while block",
                ) {
                    Ok((body, q)) => Ok((StmtM::While { condition: c, body }, q)),
                    Err(f) => Err(f),
                }
            } else {
                Err(fault(t, p, "Unexpected end of input"))
            },
            Err(f) => Err(f),
        }
    }
}

/// `for NAME in EXPR { ... }`.
pub open spec fn for_stmt(t: Seq<SpannedToken>, p: int) -> Parsed<StmtM>
    decreases t.len() - p, 22nat,
{
    if p < 0 {
        Err(fault(t, p, "Unexpected end of input"))
    } else if !at(t, p + 1, TokenType::Identifier) {
        Err(fault(t, p + 1, "Expected variable name after for"))
    } else if !word_at(t, p + 2, "in"@) {
        Err(fault(t, p + 2, "Expected 'in' after variable"))
    } else {
        match expression(t, p + 3) {
            Ok((it, q1)) => if advanced(t, p, q1) {
                match braced(
                    t,
                    skip_newline(t, q1),
                    "Expected '{' after for iterable",
                    "Expected '}' after for block",
                ) {
                    Ok((body, q)) => Ok(
                        (StmtM::For { variable: text_at(t, p + 1), iterable: it, body }, q),
                    ),
                    Err(f) => Err(f),
                }
            } else {
                Err(fault(t, p, "Unexpected end of input"))
            },
            Err(f) => Err(f),
        }
    }
}

/// Parameter names up to and including `)`: identifiers, commas between
/// them optional; scanning stops at any other token.
pub open spec fn params(t: Seq<SpannedToken>, p: int, acc: Seq<Seq<char>>) -> (Seq<Seq<char>>, int)
    decreases t.len() - p,
{
    if p < 0 || p >= t.len() {
        (acc, p)
    } else if at(t, p, TokenType::RParen) {
        (acc, p + 1)
    } else if at(t, p, TokenType::Identifier) {
        let acc2 = match t[p].1.value {
            Some(v) => acc.push(v@),
            None => acc,
        };
        if at(t, p + 1, TokenType::Comma) {
            params(t, p + 2, acc2)
        } else {
            params(t, p + 1, acc2)
        }
    } else {
        (acc, p)
    }
}

/// `fn NAME(PARAMS) { ... }`; the parameter list may be left out.
pub open spec fn function_def(t: Seq<SpannedToken>, p: int) -> Parsed<StmtM>
    decreases t.len() - p, 22nat,
{
    if p < 0 {
        Err(fault(t, p, "Unexpected end of input"))
    } else if !at(t, p + 1, TokenType::Identifier) {
        Err(fault(t, p + 1, "Expected function name after fn"))
    } else {
        let (ps, q) = if at(t, p + 2, TokenType::LParen) {
            params(t, p + 3, seq![])
        } else {
            (seq![], p + 2)
        };
        let q1 = skip_newline(t, q);
        if p < q1 <= t.len() {
            match braced(t, q1, "Expected '{' after function signature", "Expected '}' after function body") {
                Ok((body, q2)) => Ok(
                    (
                        StmtM::FunctionDef {
                            name: text_at(t, p + 1),
                            params: ps,
                            body,
                            return_value: None,
                        },
                        q2,
                    ),
                ),
                Err(f) => Err(f),
            }
        } else {
            Err(fault(t, p, "Unexpected end of input"))
        }
    }
}

/// `return` with a value unless a newline or the end follows.
pub open spec fn return_stmt(t: Seq<SpannedToken>, p: int) -> Parsed<StmtM>
    decreases t.len() - p, 22nat,
{
    if p < 0 || p >= t.len() {
        Err(fault(t, p, "Unexpected end of input"))
    } else if p + 1 >= t.len() || at(t, p + 1, TokenType::Newline) || at(t, p + 1, TokenType::EOF) {
        Ok((StmtM::Return { value: None }, skip_newline(t, p + 1)))
    } else {
        match expression(t, p + 1) {
            Ok((e, q)) => Ok((StmtM::Return { value: Some(e) }, skip_newline(t, q))),
            Err(f) => Err(f),
        }
    }
}

/// `try { ... } catch [NAME] { ... }`; the name is `e` when left out.
pub open spec fn try_stmt(t: Seq<SpannedToken>, p: int) -> Parsed<StmtM>
    decreases t.len() - p, 22nat,
{
    if p < 0 || p >= t.len() {
        Err(fault(t, p, "Unexpected end of input"))
    } else {
        match braced(t, skip_newline(t, p + 1), "Expected '{' after try", "Expected '}' after try block") {
            Ok((body, q)) => if q >= t.len() {
                Err(fault(t, q, "Expected 'catch' after try block"))
            } else if !word_at(t, q, "catch"@) {
                Err(fault(t, q, "Expected 'catch'"))
            } else if p < q {
                let (var, q1) = if at(t, q + 1, TokenType::Identifier) {
                    (text_at(t, q + 1), q + 2)
                } else {
                    ("e"@, q + 1)
                };
                match braced(t, skip_newline(t, q1), "Expected '{' after catch", "Expected '}' after catch block") {
                    Ok((cb, q2)) => Ok((StmtM::Try { body, catch_var: var, catch_body: cb }, q2)),
                    Err(f) => Err(f),
                }
            } else {
                Err(fault(t, p, "Unexpected end of input"))
            },
            Err(f) => Err(f),
        }
    }
}

pub open spec fn some_stmt(r: Parsed<StmtM>) -> Parsed<Option<StmtM>> {
    match r {
        Ok((s, q)) => Ok((Some(s), q)),
        Err(f) => Err(f),
    }
}

/// One statement from `p`, after skipping comments and newlines; `None`
/// when a `}`, the end-of-input marker or the end of the tokens comes first.
pub open spec fn statement(t: Seq<SpannedToken>, p: int) -> Parsed<Option<StmtM>>
    decreases t.len() - p, 23nat,
{
    if p < 0 || p > t.len() {
        Err(fault(t, p, "Unexpected end of input"))
    } else if p == t.len() || at(t, p, TokenType::RBrace) || at(t, p, TokenType::EOF) {
        Ok((None, p))
    } else if at(t, p, TokenType::Comment) || at(t, p, TokenType::Newline) {
        statement(t, p + 1)
    } else if at(t, p, TokenType::Identifier) {
        let name = text_at(t, p);
        if name == "if"@ {
            some_stmt(if_stmt(t, p))
        } else if name == "while"@ {
            some_stmt(while_stmt(t, p))
        } else if name == "for"@ {
            some_stmt(for_stmt(t, p))
        } else if name == "fn"@ {
            some_stmt(function_def(t, p))
        } else if name == "return"@ {
            some_stmt(return_stmt(t, p))
        } else if name == "try"@ {
            some_stmt(try_stmt(t, p))
        } else if name == "break"@ {
            Ok((Some(StmtM::Break), skip_newline(t, p + 1)))
        } else if name == "continue"@ {
            Ok((Some(StmtM::Continue), skip_newline(t, p + 1)))
        } else if at(t, p + 1, TokenType::Equals) {
            match expression(t, p + 2) {
                Ok((e, q)) => Ok((Some(StmtM::Assignment { name, value: e }), q)),
                Err(f) => Err(f),
            }
        } else if at(t, p + 1, TokenType::LParen) {
            match arguments(t, p + 2, seq![]) {
                Ok((a, q)) => if advanced(t, p, q) {
                    match command_arguments(
                        t,
                        q,
                        seq![ExprM::FunctionCall { name, args: a }],
                    ) {
                        Ok((args, q2)) => Ok((Some(StmtM::Command { name, args }), q2)),
                        Err(f) => Err(f),
                    }
                } else {
                    Err(fault(t, p, "Unexpected end of input"))
                },
                Err(f) => Err(f),
            }
        } else {
            match command_arguments(t, p + 1, seq![]) {
                Ok((args, q)) => Ok((Some(StmtM::Command { name, args }), q)),
                Err(f) => Err(f),
            }
        }
    } else {
        Err(fault(t, p, "Unexpected token at statement start"))
    }
}

/// The statements of a whole program from `p`, `acc` parsed so far.
pub open spec fn program_items(t: Seq<SpannedToken>, p: int, acc: Seq<StmtM>) -> Result<Seq<StmtM>, Fault>
    decreases t.len() - p,
{
    if p < 0 || p >= t.len() {
        Ok(acc)
    } else {
        match statement(t, p) {
            Ok((Some(s), q)) => if advanced(t, p, q) {
                program_items(t, q, acc.push(s))
            } else {
                Ok(acc)
            },
            Ok((None, _)) => Ok(acc),
            Err(f) => Err(f),
        }
    }
}

/// The model of the program that `t` parses to, or the first failure.
pub open spec fn program(t: Seq<SpannedToken>) -> Result<Seq<StmtM>, Fault> {
    program_items(t, 0, seq![])
}

/// `r` is the executable outcome of the rule outcome `s`, ending at `q`.
pub open spec fn expr_outcome(s: Parsed<ExprM>, r: ParserResult<Expression>, q: int) -> bool {
    match s {
        Ok((e, q0)) => r is Ok && expr_model(&r->Ok_0) == e && q == q0,
        Err(f) => r matches Err(e) && error_is(e, f),
    }
}

pub open spec fn list_outcome(s: Parsed<Seq<ExprM>>, r: ParserResult<Vec<Expression>>, q: int) -> bool {
    match s {
        Ok((e, q0)) => r is Ok && list_model(&r->Ok_0) == e && q == q0,
        Err(f) => r matches Err(e) && error_is(e, f),
    }
}

pub open spec fn stmt_outcome(s: Parsed<StmtM>, r: ParserResult<Option<Statement>>, q: int) -> bool {
    match s {
        Ok((m, q0)) => r matches Ok(Some(x)) && stmt_model(&x) == m && q == q0,
        Err(f) => r matches Err(e) && error_is(e, f),
    }
}

pub open spec fn block_outcome(s: Parsed<Seq<StmtM>>, r: ParserResult<Vec<Statement>>, q: int) -> bool {
    match s {
        Ok((m, q0)) => r is Ok && block_model(&r->Ok_0) == m && q == q0,
        Err(f) => r matches Err(e) && error_is(e, f),
    }
}

/// A parse error: `msg`, and the byte offset where the token at `pos`
/// starts (where the tokens end, when `pos` is past them).
fn fail<T>(tokens: &[SpannedToken], pos: usize, msg: &str) -> (r: ParserResult<T>)
    ensures
        r matches Err(e) && error_is(e, fault(tokens@, pos as int, msg)),
{
    let offset = if pos < tokens.len() {
        tokens[pos].0
    } else if tokens.len() > 0 {
        tokens[tokens.len() - 1].2
    } else {
        0
    };
    let mut m = String::new();
    push_str(&mut m, msg);
    push_str(&mut m, " at position ");
    push_decimal(&mut m, offset as u64);
    assert(m@ =~= fault_text(fault(tokens@, pos as int, msg)));
    Err(ParserError::Other(m))
}

/// Kind of the token at `pos`, the end-of-input kind past the end.
fn get_token_type(tokens: &[SpannedToken], pos: usize) -> (r: TokenType)
    ensures
        r == kind_at(tokens@, pos as int),
{
    if pos < tokens.len() {
        tokens[pos].1.token_type
    } else {
        TokenType::EOF
    }
}

fn at_kind(tokens: &[SpannedToken], pos: usize, k: TokenType) -> (r: bool)
    ensures
        r == at(tokens@, pos as int, k),
{
    pos < tokens.len() && tokens[pos].1.token_type == k
}

/// Text of the token at `pos`, empty when it carries none.
fn token_text(tokens: &[SpannedToken], pos: usize) -> (r: String)
    requires
        pos < tokens.len(),
    ensures
        r@ == text_at(tokens@, pos as int),
{
    match &tokens[pos].1.value {
        Some(v) => v.clone(),
        None => String::new(),
    }
}

fn str_eq(a: &str, b: &str) -> (r: bool)
    ensures
        r == (a@ == b@),
{
    let n = a.unicode_len();
    if n != b.unicode_len() {
        return false;
    }
    let mut i: usize = 0;
    while i < n
        invariant
            n == a@.len(),
            n == b@.len(),
            i <= n,
            forall|k: int| 0 <= k < i ==> a@[k] == b@[k],
        decreases n - i,
    {
        if a.get_char(i) != b.get_char(i) {
            return false;
        }
        i = i + 1;
    }
    assert(a@ =~= b@);
    true
}

/// Whether the token at `pos` is the identifier `w`.
fn word_at_pos(tokens: &[SpannedToken], pos: usize, w: &str) -> (r: bool)
    ensures
        r == word_at(tokens@, pos as int, w@),
{
    if pos < tokens.len() && tokens[pos].1.token_type == TokenType::Identifier {
        match &tokens[pos].1.value {
            Some(v) => str_eq(v.as_str(), w),
            None => {
                let n = w.unicode_len();
                proof {
                    if n == 0 {
                        assert(w@ =~= Seq::<char>::empty());
                    }
                }
                n == 0
            },
        }
    } else {
        false
    }
}

/// Skips one newline at `pos`, if there is one.
fn consume_newline(tokens: &[SpannedToken], pos: &mut usize)
    requires
        *old(pos) <= tokens.len(),
    ensures
        *final(pos) == skip_newline(tokens@, *old(pos) as int),
        *final(pos) <= tokens.len(),
{
    if *pos < tokens.len() && tokens[*pos].1.token_type == TokenType::Newline {
        *pos = *pos + 1;
    }
}

/// The operator of level `level` at `pos`, if any.
fn binary_op_at(tokens: &[SpannedToken], pos: usize, level: u8) -> (r: Option<BinaryOperator>)
    ensures
        r == (if pos < tokens.len() {
            level_op(tokens@[pos as int].1.token_type, level as nat)
        } else {
            None
        }),
{
    if pos >= tokens.len() {
        return None;
    }
    let k = tokens[pos].1.token_type;
    if level == 8 && k == TokenType::Or {
        Some(BinaryOperator::Or)
    } else if level == 7 && k == TokenType::And {
        Some(BinaryOperator::And)
    } else if level == 6 && k == TokenType::EqEq {
        Some(BinaryOperator::Equals)
    } else if level == 6 && k == TokenType::NotEq {
        Some(BinaryOperator::NotEquals)
    } else if level == 5 && k == TokenType::Less {
        Some(BinaryOperator::Less)
    } else if level == 5 && k == TokenType::Greater {
        Some(BinaryOperator::Greater)
    } else if level == 5 && k == TokenType::LessEq {
        Some(BinaryOperator::LessEquals)
    } else if level == 5 && k == TokenType::GreaterEq {
        Some(BinaryOperator::GreaterEquals)
    } else if level == 4 && k == TokenType::Plus {
        Some(BinaryOperator::Add)
    } else if level == 4 && k == TokenType::Minus {
        Some(BinaryOperator::Subtract)
    } else if level == 3 && k == TokenType::Star {
        Some(BinaryOperator::Multiply)
    } else if level == 3 && k == TokenType::Slash {
        Some(BinaryOperator::Divide)
    } else if level == 3 && k == TokenType::Percent {
        Some(BinaryOperator::Modulo)
    } else {
        None
    }
}

fn parse_expression(tokens: &[SpannedToken], pos: &mut usize) -> (r: ParserResult<Expression>)
    requires
        *old(pos) <= tokens.len(),
    ensures
        *final(pos) <= tokens.len(),
        *old(pos) <= *final(pos),
        r is Ok ==> *old(pos) < *final(pos),
        expr_outcome(expression(tokens@, *old(pos) as int), r, *final(pos) as int),
    decreases tokens.len() - *old(pos), 18nat,
{
    parse_or_expression(tokens, pos)
}

fn parse_or_expression(tokens: &[SpannedToken], pos: &mut usize) -> (r: ParserResult<Expression>)
    requires
        *old(pos) <= tokens.len(),
    ensures
        *final(pos) <= tokens.len(),
        *old(pos) <= *final(pos),
        r is Ok ==> *old(pos) < *final(pos),
        expr_outcome(binary(tokens@, *old(pos) as int, 8), r, *final(pos) as int),
    decreases tokens.len() - *old(pos), 17nat,
{
    let ghost t = tokens@;
    let ghost p = *pos as int;
    proof {
        lemma_operand(t, p, 3);
    }
    let mut left = match parse_and_expression(tokens, pos) {
        Ok(e) => e,
        Err(e) => return Err(e),
    };
    loop
        invariant
            t == tokens@,
            p == *old(pos),
            p < *pos <= tokens.len(),
            binary_rest(t, *pos as int, 8, expr_model(&left)) == binary(t, p, 8),
        ensures
            binary(t, p, 8) == Ok::<(ExprM, int), Fault>((expr_model(&left), *pos as int)),
        decreases tokens.len() - *pos,
    {
        match binary_op_at(tokens, *pos, 8) {
            Some(op) => {
                proof {
                    lemma_operand(t, *pos + 1, 8);
                }
                *pos = *pos + 1;
                let right = match parse_and_expression(tokens, pos) {
                    Ok(e) => e,
                    Err(e) => return Err(e),
                };
                left = Expression::BinaryOp { op, left: Box::new(left), right: Box::new(right) };
            },
            None => break,
        }
    }
    Ok(left)
}

fn parse_and_expression(tokens: &[SpannedToken], pos: &mut usize) -> (r: ParserResult<Expression>)
    requires
        *old(pos) <= tokens.len(),
    ensures
        *final(pos) <= tokens.len(),
        *old(pos) <= *final(pos),
        r is Ok ==> *old(pos) < *final(pos),
        expr_outcome(binary(tokens@, *old(pos) as int, 7), r, *final(pos) as int),
    decreases tokens.len() - *old(pos), 15nat,
{
    let ghost t = tokens@;
    let ghost p = *pos as int;
    proof {
        lemma_operand(t, p, 4);
    }
    let mut left = match parse_equality_expression(tokens, pos) {
        Ok(e) => e,
        Err(e) => return Err(e),
    };
    loop
        invariant
            t == tokens@,
            p == *old(pos),
            p < *pos <= tokens.len(),
            binary_rest(t, *pos as int, 7, expr_model(&left)) == binary(t, p, 7),
        ensures
            binary(t, p, 7) == Ok::<(ExprM, int), Fault>((expr_model(&left), *pos as int)),
        decreases tokens.len() - *pos,
    {
        match binary_op_at(tokens, *pos, 7) {
            Some(op) => {
                proof {
                    lemma_operand(t, *pos + 1, 7);
                }
                *pos = *pos + 1;
                let right = match parse_equality_expression(tokens, pos) {
                    Ok(e) => e,
                    Err(e) => return Err(e),
                };
                left = Expression::BinaryOp { op, left: Box::new(left), right: Box::new(right) };
            },
            None => break,
        }
    }
    Ok(left)
}

fn parse_equality_expression(tokens: &[SpannedToken], pos: &mut usize) -> (r: ParserResult<Expression>)
    requires
        *old(pos) <= tokens.len(),
    ensures
        *final(pos) <= tokens.len(),
        *old(pos) <= *final(pos),
        r is Ok ==> *old(pos) < *final(pos),
        expr_outcome(binary(tokens@, *old(pos) as int, 6), r, *final(pos) as int),
    decreases tokens.len() - *old(pos), 13nat,
{
    let ghost t = tokens@;
    let ghost p = *pos as int;
    proof {
        lemma_operand(t, p, 5);
    }
    let mut left = match parse_comparison_expression(tokens, pos) {
        Ok(e) => e,
        Err(e) => return Err(e),
    };
    loop
        invariant
            t == tokens@,
            p == *old(pos),
            p < *pos <= tokens.len(),
            binary_rest(t, *pos as int, 6, expr_model(&left)) == binary(t, p, 6),
        ensures
            binary(t, p, 6) == Ok::<(ExprM, int), Fault>((expr_model(&left), *pos as int)),
        decreases tokens.len() - *pos,
    {
        match binary_op_at(tokens, *pos, 6) {
            Some(op) => {
                proof {
                    lemma_operand(t, *pos + 1, 6);
                }
                *pos = *pos + 1;
                let right = match parse_comparison_expression(tokens, pos) {
                    Ok(e) => e,
                    Err(e) => return Err(e),
                };
                left = Expression::BinaryOp { op, left: Box::new(left), right: Box::new(right) };
            },
            None => break,
        }
    }
    Ok(left)
}

fn parse_comparison_expression(tokens: &[SpannedToken], pos: &mut usize) -> (r: ParserResult<Expression>)
    requires
        *old(pos) <= tokens.len(),
    ensures
        *final(pos) <= tokens.len(),
        *old(pos) <= *final(pos),
        r is Ok ==> *old(pos) < *final(pos),
        expr_outcome(binary(tokens@, *old(pos) as int, 5), r, *final(pos) as int),
    decreases tokens.len() - *old(pos), 11nat,
{
    let ghost t = tokens@;
    let ghost p = *pos as int;
    proof {
        lemma_operand(t, p, 6);
    }
    let mut left = match parse_additive_expression(tokens, pos) {
        Ok(e) => e,
        Err(e) => return Err(e),
    };
    loop
        invariant
            t == tokens@,
            p == *old(pos),
            p < *pos <= tokens.len(),
            binary_rest(t, *pos as int, 5, expr_model(&left)) == binary(t, p, 5),
        ensures
            binary(t, p, 5) == Ok::<(ExprM, int), Fault>((expr_model(&left), *pos as int)),
        decreases tokens.len() - *pos,
    {
        match binary_op_at(tokens, *pos, 5) {
            Some(op) => {
                proof {
                    lemma_operand(t, *pos + 1, 5);
                }
                *pos = *pos + 1;
                let right = match parse_additive_expression(tokens, pos) {
                    Ok(e) => e,
                    Err(e) => return Err(e),
                };
                left = Expression::BinaryOp { op, left: Box::new(left), right: Box::new(right) };
            },
            None => break,
        }
    }
    Ok(left)
}

fn parse_additive_expression(tokens: &[SpannedToken], pos: &mut usize) -> (r: ParserResult<Expression>)
    requires
        *old(pos) <= tokens.len(),
    ensures
        *final(pos) <= tokens.len(),
        *old(pos) <= *final(pos),
        r is Ok ==> *old(pos) < *final(pos),
        expr_outcome(binary(tokens@, *old(pos) as int, 4), r, *final(pos) as int),
    decreases tokens.len() - *old(pos), 9nat,
{
    let ghost t = tokens@;
    let ghost p = *pos as int;
    proof {
        lemma_operand(t, p, 7);
    }
    let mut left = match parse_multiplicative_expression(tokens, pos) {
        Ok(e) => e,
        Err(e) => return Err(e),
    };
    loop
        invariant
            t == tokens@,
            p == *old(pos),
            p < *pos <= tokens.len(),
            binary_rest(t, *pos as int, 4, expr_model(&left)) == binary(t, p, 4),
        ensures
            binary(t, p, 4) == Ok::<(ExprM, int), Fault>((expr_model(&left), *pos as int)),
        decreases tokens.len() - *pos,
    {
        match binary_op_at(tokens, *pos, 4) {
            Some(op) => {
                proof {
                    lemma_operand(t, *pos + 1, 4);
                }
                *pos = *pos + 1;
                let right = match parse_multiplicative_expression(tokens, pos) {
                    Ok(e) => e,
                    Err(e) => return Err(e),
                };
                left = Expression::BinaryOp { op, left: Box::new(left), right: Box::new(right) };
            },
            None => break,
        }
    }
    Ok(left)
}

fn parse_multiplicative_expression(tokens: &[SpannedToken], pos: &mut usize) -> (r: ParserResult<Expression>)
    requires
        *old(pos) <= tokens.len(),
    ensures
        *final(pos) <= tokens.len(),
        *old(pos) <= *final(pos),
        r is Ok ==> *old(pos) < *final(pos),
        expr_outcome(binary(tokens@, *old(pos) as int, 3), r, *final(pos) as int),
    decreases tokens.len() - *old(pos), 7nat,
{
    let ghost t = tokens@;
    let ghost p = *pos as int;
    proof {
        lemma_operand(t, p, 8);
    }
    let mut left = match parse_unary_expression(tokens, pos) {
        Ok(e) => e,
        Err(e) => return Err(e),
    };
    loop
        invariant
            t == tokens@,
            p == *old(pos),
            p < *pos <= tokens.len(),
            binary_rest(t, *pos as int, 3, expr_model(&left)) == binary(t, p, 3),
        ensures
            binary(t, p, 3) == Ok::<(ExprM, int), Fault>((expr_model(&left), *pos as int)),
        decreases tokens.len() - *pos,
    {
        match binary_op_at(tokens, *pos, 3) {
            Some(op) => {
                proof {
                    lemma_operand(t, *pos + 1, 3);
                }
                *pos = *pos + 1;
                let right = match parse_unary_expression(tokens, pos) {
                    Ok(e) => e,
                    Err(e) => return Err(e),
                };
                left = Expression::BinaryOp { op, left: Box::new(left), right: Box::new(right) };
            },
            None => break,
        }
    }
    Ok(left)
}

proof fn lemma_operand(t: Seq<SpannedToken>, p: int, level: nat)
    requires
        3 <= level <= 8,
    ensures
        operand(t, p, level) == if level == 3 {
            unary(t, p)
        } else {
            binary(t, p, (level - 1) as nat)
        },
{
}

fn parse_unary_expression(tokens: &[SpannedToken], pos: &mut usize) -> (r: ParserResult<Expression>)
    requires
        *old(pos) <= tokens.len(),
    ensures
        *final(pos) <= tokens.len(),
        *old(pos) <= *final(pos),
        r is Ok ==> *old(pos) < *final(pos),
        expr_outcome(unary(tokens@, *old(pos) as int), r, *final(pos) as int),
    decreases tokens.len() - *old(pos), 2nat,
{
    if *pos >= tokens.len() {
        return fail(tokens, *pos, "Unexpected end of input");
    }
    let k = tokens[*pos].1.token_type;
    if k == TokenType::Minus || k == TokenType::Not {
        let op = if k == TokenType::Minus {
            UnaryOperator::Negate
        } else {
            UnaryOperator::Not
        };
        *pos = *pos + 1;
        let expr = match parse_unary_expression(tokens, pos) {
            Ok(e) => e,
            Err(e) => return Err(e),
        };
        Ok(Expression::UnaryOp { op, expr: Box::new(expr) })
    } else {
        parse_primary_expression(tokens, pos)
    }
}

/// Value of an integer token's text, as `str::parse::<i64>` reads it, 0 when
/// it does not read as one.
fn integer_value(text: &str) -> (r: i64)
    ensures
        r == int_value(text@),
{
    let n = text.unicode_len();
    let ghost s = text@;
    let mut i: usize = 0;
    let mut neg = false;
    if n > 0 && (text.get_char(0) == '+' || text.get_char(0) == '-') {
        neg = text.get_char(0) == '-';
        i = 1;
    }
    let ghost d = if i == 1 { s.drop_first() } else { s };
    if i == n {
        return 0;
    }
    let mut acc: u64 = 0;
    let limit: u64 = 9223372036854775808;
    while i < n
        invariant
            n == s.len(),
            s == text@,
            1 <= n,
            (i0_of(s) == 1 && d == s.drop_first()) || (i0_of(s) == 0 && d == s),
            neg == (s[0] == '-'),
            i0_of(s) <= i <= n,
            d.len() == n - i0_of(s),
            all_digits(d.take((i - i0_of(s)) as int)),
            acc == digits_value(d.take((i - i0_of(s)) as int)),
            acc <= limit,
            limit == 9223372036854775808,
        decreases n - i,
    {
        let c = text.get_char(i);
        if !('0' <= c && c <= '9') {
            proof {
                assert(d[(i - i0_of(s)) as int] == c);
                assert(!is_digit(d[(i - i0_of(s)) as int]));
                assert(!all_digits(d));
            }
            return 0;
        }
        assert('0' as u32 <= c as u32 <= '9' as u32);
        let v = (c as u32 - '0' as u32) as u64;
        assert(v <= 9);
        proof {
            let k = (i - i0_of(s)) as int;
            assert(d.take(k + 1).drop_last() =~= d.take(k));
            assert(d.take(k + 1).last() == c);
            assert(all_digits(d.take(k + 1)));
        }
        if acc > (limit - v) / 10 {
            proof {
                let k = (i - i0_of(s)) as int;
                assert(digits_value(d.take(k + 1)) > limit);
                if all_digits(d) {
                    lemma_digits_grow(d, k + 1);
                }
            }
            return 0;
        }
        acc = acc * 10 + v;
        i = i + 1;
    }
    proof {
        assert(d.take(d.len() as int) =~= d);
    }
    if neg {
        if acc == limit {
            i64::MIN
        } else {
            -(acc as i64)
        }
    } else if acc == limit {
        0
    } else {
        acc as i64
    }
}

/// Index of the first digit: 1 after a sign, else 0.
pub open spec fn i0_of(s: Seq<char>) -> int {
    if s.len() > 0 && (s[0] == '+' || s[0] == '-') {
        1
    } else {
        0
    }
}

proof fn lemma_digits_nonneg(d: Seq<char>)
    requires
        all_digits(d),
    ensures
        digits_value(d) >= 0,
    decreases d.len(),
{
    if d.len() > 0 {
        assert(all_digits(d.drop_last()));
        lemma_digits_nonneg(d.drop_last());
    }
}

/// Adding digits never makes the value smaller.
proof fn lemma_digits_grow(d: Seq<char>, k: int)
    requires
        0 <= k <= d.len(),
        all_digits(d),
    ensures
        digits_value(d.take(k)) <= digits_value(d),
    decreases d.len() - k,
{
    if k < d.len() {
        assert(d.take(k + 1).drop_last() =~= d.take(k));
        assert(all_digits(d.take(k)));
        lemma_digits_nonneg(d.take(k));
        lemma_digits_grow(d, k + 1);
    } else {
        assert(d.take(k) =~= d);
    }
}

fn parse_primary_expression(tokens: &[SpannedToken], pos: &mut usize) -> (r: ParserResult<Expression>)
    requires
        *old(pos) <= tokens.len(),
    ensures
        *final(pos) <= tokens.len(),
        *old(pos) <= *final(pos),
        r is Ok ==> *old(pos) < *final(pos),
        expr_outcome(primary(tokens@, *old(pos) as int), r, *final(pos) as int),
    decreases tokens.len() - *old(pos), 1nat,
{
    if *pos >= tokens.len() {
        return fail(tokens, *pos, "Unexpected end of input");
    }
    let ghost t = tokens@;
    let ghost p = *pos as int;
    proof {
        reveal_with_fuel(expr_model, 2);
    }
    let k = tokens[*pos].1.token_type;
    if k == TokenType::Integer {
        let text = token_text(tokens, *pos);
        let val = integer_value(text.as_str());
        *pos = *pos + 1;
        Ok(Expression::Literal(Literal::Integer(val)))
    } else if k == TokenType::Boolean {
        let text = token_text(tokens, *pos);
        proof {
            reveal_strlit("true");
            assert("true"@ =~= word_true());
        }
        let val = str_eq(text.as_str(), "true");
        *pos = *pos + 1;
        Ok(Expression::Literal(Literal::Boolean(val)))
    } else if k == TokenType::Null {
        *pos = *pos + 1;
        Ok(Expression::Literal(Literal::Null))
    } else if k == TokenType::String {
        let text = token_text(tokens, *pos);
        *pos = *pos + 1;
        Ok(Expression::Literal(Literal::String(text)))
    } else if k == TokenType::InterpolatedString {
        let content = token_text(tokens, *pos);
        *pos = *pos + 1;
        parse_interpolated_string(content)
    } else if k == TokenType::Identifier {
        let name = token_text(tokens, *pos);
        *pos = *pos + 1;
        if at_kind(tokens, *pos, TokenType::LParen) {
            *pos = *pos + 1;
            let args = match parse_function_args(tokens, pos) {
                Ok(a) => a,
                Err(e) => return Err(e),
            };
            return Ok(Expression::FunctionCall { name, args });
        }
        Ok(Expression::Identifier(name))
    } else if k == TokenType::LBracket {
        *pos = *pos + 1;
        parse_array(tokens, pos)
    } else if k == TokenType::LBrace {
        *pos = *pos + 1;
        parse_map(tokens, pos)
    } else if k == TokenType::LParen {
        *pos = *pos + 1;
        let expr = match parse_expression(tokens, pos) {
            Ok(e) => e,
            Err(e) => return Err(e),
        };
        if !at_kind(tokens, *pos, TokenType::RParen) {
            return fail(tokens, *pos, "Expected ')'");
        }
        *pos = *pos + 1;
        Ok(expr)
    } else {
        fail(tokens, *pos, "Unexpected token in expression")
    }
}

proof fn lemma_name_end(s: Seq<char>, i: int)
    requires
        0 <= i <= s.len(),
    ensures
        i <= name_end(s, i) <= s.len(),
        i < s.len() && name_char(s[i]) ==> i < name_end(s, i),
    decreases s.len() - i,
{
    if i < s.len() {
        lemma_name_end(s, i + 1);
    }
}

/// The placeholder at `i` of `cs`, as [`placeholder_at`] gives it.
fn find_placeholder(cs: &Vec<char>, i: usize) -> (r: Option<(String, usize)>)
    requires
        i < cs.len(),
    ensures
        match placeholder_at(cs@, i as int) {
            Some((name, e)) => r matches Some((n, e2)) && n@ == name && e2 == e && i < e <= cs.len(),
            None => r is None,
        },
{
    if i + 1 >= cs.len() || !(cs[i] == '$' || cs[i] == '{') {
        return None;
    }
    let c = cs[i + 1];
    if !(is_alphabetic(c) || c == '_') {
        return None;
    }
    let ghost s = cs@;
    let mut name = String::new();
    let mut e = i + 1;
    while e < cs.len()
        invariant_except_break
            name_end(s, e as int) == name_end(s, i + 1),
        invariant
            s == cs@,
            i + 1 <= e <= cs.len(),
            name@ == s.subrange(i + 1, e as int),
        ensures
            name_end(s, i + 1) == e,
        decreases cs.len() - e,
    {
        let d = cs[e];
        if is_alphanumeric(d) || d == '_' {
            push_char(&mut name, d);
            e = e + 1;
            assert(name@ =~= s.subrange(i + 1, e as int));
        } else {
            break;
        }
    }
    proof {
        lemma_name_end(s, i + 1);
    }
    if cs[i] == '$' {
        Some((name, e))
    } else if e < cs.len() && cs[e] == '}' {
        Some((name, e + 1))
    } else {
        None
    }
}

/// A double-quoted string's content: split at its `$name` and `{name}`
/// placeholders when it has any, else kept whole as a string literal.
fn parse_interpolated_string(content: String) -> (r: ParserResult<Expression>)
    ensures
        r matches Ok(e) && expr_model(&e) == interpolated(content@),
{
    let cs = chars_of(content.as_str());
    let ghost s = cs@;
    let mut parts: Vec<Expression> = Vec::new();
    let mut lit = String::new();
    let mut found = false;
    let mut i: usize = 0;
    assert(list_model(&parts) =~= Seq::<ExprM>::empty());
    while i < cs.len()
        invariant
            s == cs@,
            s == content@,
            i <= cs.len(),
            split_parts(s, i as int, lit@, list_model(&parts)) == split_parts(s, 0, seq![], seq![]),
            has_placeholder(s, 0) == (found || has_placeholder(s, i as int)),
        decreases cs.len() - i,
    {
        match find_placeholder(&cs, i) {
            Some((name, e)) => {
                let ghost before = parts;
                let ghost lm = list_model(&parts);
                let ghost l0 = lit@;
                if lit.unicode_len() > 0 {
                    let text = Expression::Literal(Literal::String(lit));
                    let ghost gt = text;
                    parts.push(text);
                    proof {
                        lemma_exprs_push(&before, &parts, gt);
                        reveal_with_fuel(expr_model, 2);
                    }
                    lit = String::new();
                } else {
                    proof {
                        assert(lit@ =~= Seq::<char>::empty());
                    }
                }
                assert(list_model(&parts) == flush(lm, l0));
                let ghost mid = parts;
                let id = Expression::Identifier(name);
                let ghost gi = id;
                parts.push(id);
                proof {
                    lemma_exprs_push(&mid, &parts, gi);
                    assert(expr_model(&gi) == ExprM::Identifier(name@));
                }
                found = true;
                i = e;
            },
            None => {
                push_char(&mut lit, cs[i]);
                i = i + 1;
            },
        }
    }
    if !found {
        proof {
            reveal_with_fuel(expr_model, 2);
            assert(!has_placeholder(s, cs.len() as int));
            assert(!has_placeholder(s, 0));
        }
        return Ok(Expression::Literal(Literal::String(content)));
    }
    if lit.unicode_len() > 0 {
        let ghost before = parts;
        let text = Expression::Literal(Literal::String(lit));
        let ghost gt = text;
        parts.push(text);
        proof {
            lemma_exprs_push(&before, &parts, gt);
            reveal_with_fuel(expr_model, 2);
        }
    }
    proof {
        reveal_with_fuel(expr_model, 2);
    }
    Ok(Expression::InterpolatedString { parts })
}

/// Expressions up to the closer `close`, as [`expr_list`] reads them.
fn parse_expression_list(tokens: &[SpannedToken], pos: &mut usize, close: TokenType, closer: &str) -> (r: ParserResult<Vec<Expression>>)
    requires
        *old(pos) <= tokens.len(),
        closer@ == list_closer(close)@,
    ensures
        *final(pos) <= tokens.len(),
        *old(pos) <= *final(pos),
        list_outcome(expr_list(tokens@, *old(pos) as int, close, seq![]), r, *final(pos) as int),
    decreases tokens.len() - *old(pos), 19nat,
{
    let ghost t = tokens@;
    let ghost p = *pos as int;
    let mut items: Vec<Expression> = Vec::new();
    loop
        invariant_except_break
            expr_list(t, *pos as int, close, list_model(&items)) == expr_list(t, p, close, seq![]),
        invariant
            closer@ == list_closer(close)@,
            t == tokens@,
            p == *old(pos),
            p <= *pos <= tokens.len(),
        ensures
            expr_list(t, p, close, seq![]) == Ok::<(Seq<ExprM>, int), Fault>((list_model(&items), *pos as int)),
        decreases tokens.len() - *pos,
    {
        if *pos >= tokens.len() {
            break;
        }
        let k = tokens[*pos].1.token_type;
        if k == close {
            *pos = *pos + 1;
            break;
        }
        if k == TokenType::Newline || k == TokenType::EOF {
            assert(fault(t, *pos as int, closer) == fault(t, *pos as int, list_closer(close)));
            return fail(tokens, *pos, closer);
        }
        let e = match parse_expression(tokens, pos) {
            Ok(e) => e,
            Err(e) => return Err(e),
        };
        let ghost before = items;
        items.push(e);
        proof {
            lemma_exprs_push(&before, &items, e);
        }
        if at_kind(tokens, *pos, TokenType::Comma) {
            *pos = *pos + 1;
        }
    }
    Ok(items)
}

fn parse_function_args(tokens: &[SpannedToken], pos: &mut usize) -> (r: ParserResult<Vec<Expression>>)
    requires
        *old(pos) <= tokens.len(),
    ensures
        *final(pos) <= tokens.len(),
        *old(pos) <= *final(pos),
        list_outcome(arguments(tokens@, *old(pos) as int, seq![]), r, *final(pos) as int),
    decreases tokens.len() - *old(pos), 20nat,
{
    parse_expression_list(tokens, pos, TokenType::RParen, "Expected ')' or argument")
}

fn parse_array(tokens: &[SpannedToken], pos: &mut usize) -> (r: ParserResult<Expression>)
    requires
        *old(pos) <= tokens.len(),
    ensures
        *final(pos) <= tokens.len(),
        *old(pos) <= *final(pos),
        expr_outcome(
            match elements(tokens@, *old(pos) as int, seq![]) {
                Ok((items, q)) => Ok((ExprM::Literal(LitM::Array(items)), q)),
                Err(f) => Err(f),
            },
            r,
            *final(pos) as int,
        ),
    decreases tokens.len() - *old(pos), 20nat,
{
    proof {
        reveal_with_fuel(expr_model, 2);
    }
    match parse_expression_list(tokens, pos, TokenType::RBracket, "Expected ']' or element") {
        Ok(items) => Ok(Expression::Literal(Literal::Array(items))),
        Err(e) => Err(e),
    }
}

fn parse_map(tokens: &[SpannedToken], pos: &mut usize) -> (r: ParserResult<Expression>)
    requires
        *old(pos) <= tokens.len(),
    ensures
        *final(pos) <= tokens.len(),
        *old(pos) <= *final(pos),
        expr_outcome(
            match entries(tokens@, *old(pos) as int, seq![]) {
                Ok((items, q)) => Ok((ExprM::Literal(LitM::Dict(items)), q)),
                Err(f) => Err(f),
            },
            r,
            *final(pos) as int,
        ),
    decreases tokens.len() - *old(pos), 20nat,
{
    let ghost t = tokens@;
    let ghost p = *pos as int;
    let mut pairs: Vec<(Expression, Expression)> = Vec::new();
    loop
        invariant_except_break
            entries(t, *pos as int, pairs_model(&pairs, pairs.len() as int)) == entries(t, p, seq![]),
        invariant
            t == tokens@,
            p == *old(pos),
            p <= *pos <= tokens.len(),
        ensures
            entries(t, p, seq![]) == Ok::<(Seq<(ExprM, ExprM)>, int), Fault>(
                (pairs_model(&pairs, pairs.len() as int), *pos as int),
            ),
        decreases tokens.len() - *pos,
    {
        if *pos >= tokens.len() {
            break;
        }
        let k = tokens[*pos].1.token_type;
        if k == TokenType::RBrace {
            *pos = *pos + 1;
            break;
        }
        if k == TokenType::Newline || k == TokenType::EOF {
            return fail(tokens, *pos, "Expected '}' or key");
        }
        let key = match parse_expression(tokens, pos) {
            Ok(e) => e,
            Err(e) => return Err(e),
        };
        if !at_kind(tokens, *pos, TokenType::Colon) {
            return fail(tokens, *pos, "Expected ':' after key");
        }
        *pos = *pos + 1;
        let value = match parse_expression(tokens, pos) {
            Ok(e) => e,
            Err(e) => return Err(e),
        };
        let ghost before = pairs;
        let pair = (key, value);
        let ghost gp = pair;
        pairs.push(pair);
        proof {
            lemma_pairs_push(&before, &pairs, gp);
        }
        if at_kind(tokens, *pos, TokenType::Comma) {
            *pos = *pos + 1;
        }
    }
    proof {
        reveal_with_fuel(expr_model, 2);
    }
    Ok(Expression::Literal(Literal::Dict(pairs)))
}

/// One command argument: a `-flag`, a `/path`, or a primary expression of
/// the simple kinds. Command arguments are shell words, not values, which is
/// why flags and paths are put back together into one string here.
fn parse_command_argument(tokens: &[SpannedToken], pos: &mut usize) -> (r: ParserResult<Expression>)
    requires
        *old(pos) <= tokens.len(),
    ensures
        *final(pos) <= tokens.len(),
        *old(pos) <= *final(pos),
        r is Ok ==> *old(pos) < *final(pos),
        expr_outcome(command_argument(tokens@, *old(pos) as int), r, *final(pos) as int),
    decreases tokens.len() - *old(pos), 21nat,
{
    if *pos >= tokens.len() {
        return fail(tokens, *pos, "Unexpected end of input");
    }
    let ghost t = tokens@;
    let ghost p = *pos as int;
    proof {
        reveal_with_fuel(expr_model, 2);
    }
    let k = tokens[*pos].1.token_type;
    if k == TokenType::Integer || k == TokenType::Boolean || k == TokenType::Null || k
        == TokenType::String || k == TokenType::InterpolatedString || k == TokenType::Identifier {
        parse_primary_expression(tokens, pos)
    } else if k == TokenType::Minus {
        let mut value = String::new();
        push_char(&mut value, '-');
        assert(value@ =~= seq!['-']);
        *pos = *pos + 1;
        while *pos < tokens.len()
            invariant_except_break
                flag_rest(t, *pos as int, value@) == flag_rest(t, p + 1, seq!['-']),
            invariant
                t == tokens@,
                0 <= p < *pos <= tokens.len(),
            ensures
                flag_rest(t, p + 1, seq!['-']) == (value@, *pos as int),
            decreases tokens.len() - *pos,
        {
            if tokens[*pos].1.token_type != TokenType::Identifier || tokens[*pos].0 != tokens[*pos
                - 1].2 {
                break;
            }
            match &tokens[*pos].1.value {
                Some(v) => {
                    let vs = v.as_str();
                    if vs.unicode_len() > 0 && is_alphanumeric(vs.get_char(0)) {
                        push_str(&mut value, vs);
                        *pos = *pos + 1;
                    } else {
                        break;
                    }
                },
                None => {
                    break;
                },
            }
        }
        Ok(Expression::Literal(Literal::String(value)))
    } else if k == TokenType::Slash {
        let mut value = String::new();
        push_char(&mut value, '/');
        assert(value@ =~= seq!['/']);
        *pos = *pos + 1;
        while *pos < tokens.len()
            invariant_except_break
                path_rest(t, *pos as int, value@) == path_rest(t, p + 1, seq!['/']),
            invariant
                t == tokens@,
                0 <= p < *pos <= tokens.len(),
            ensures
                path_rest(t, p + 1, seq!['/']) == (value@, *pos as int),
            decreases tokens.len() - *pos,
        {
            if tokens[*pos].1.token_type != TokenType::Identifier || tokens[*pos].0 != tokens[*pos
                - 1].2 {
                break;
            }
            match &tokens[*pos].1.value {
                Some(v) => {
                    push_str(&mut value, v.as_str());
                    *pos = *pos + 1;
                    if tokens.len() - *pos > 1 && tokens[*pos].1.token_type == TokenType::Slash
                        && tokens[*pos].0 == tokens[*pos - 1].2 && tokens[*pos + 1].1.token_type
                        == TokenType::Identifier {
                        push_char(&mut value, '/');
                        *pos = *pos + 1;
                    } else {
                        break;
                    }
                },
                None => {
                    break;
                },
            }
        }
        Ok(Expression::Literal(Literal::String(value)))
    } else {
        fail(tokens, *pos, "Unexpected token in command argument")
    }
}

/// Command arguments up to a newline, a `}` or the end, after `first`.
fn parse_command_arguments(tokens: &[SpannedToken], pos: &mut usize, first: Vec<Expression>) -> (r: ParserResult<Vec<Expression>>)
    requires
        *old(pos) <= tokens.len(),
    ensures
        *final(pos) <= tokens.len(),
        *old(pos) <= *final(pos),
        list_outcome(command_arguments(tokens@, *old(pos) as int, list_model(&first)), r, *final(pos) as int),
    decreases tokens.len() - *old(pos), 22nat,
{
    let ghost t = tokens@;
    let ghost p = *pos as int;
    let ghost m0 = list_model(&first);
    let mut args = first;
    while *pos < tokens.len()
        invariant_except_break
            command_arguments(t, *pos as int, list_model(&args)) == command_arguments(t, p, m0),
        invariant
            t == tokens@,
            p == *old(pos),
            m0 == list_model(&first),
            p <= *pos <= tokens.len(),
        ensures
            command_arguments(t, p, m0) == Ok::<(Seq<ExprM>, int), Fault>((list_model(&args), *pos as int)),
        decreases tokens.len() - *pos,
    {
        let k = tokens[*pos].1.token_type;
        if k == TokenType::Newline || k == TokenType::EOF || k == TokenType::RBrace {
            break;
        }
        let ghost q = *pos as int;
        let a = match parse_command_argument(tokens, pos) {
            Ok(a) => a,
            Err(e) => {
                assert(command_arguments(t, q, list_model(&args)) is Err);
                return Err(e);
            },
        };
        let ghost before = args;
        args.push(a);
        proof {
            lemma_exprs_push(&before, &args, a);
        }
    }
    Ok(args)
}

/// Statements of a block whose `{` was consumed, up to (not over) its `}`.
fn parse_block(tokens: &[SpannedToken], pos: &mut usize) -> (r: ParserResult<Vec<Statement>>)
    requires
        *old(pos) <= tokens.len(),
    ensures
        *final(pos) <= tokens.len(),
        *old(pos) <= *final(pos),
        block_outcome(block(tokens@, *old(pos) as int), r, *final(pos) as int),
    decreases tokens.len() - *old(pos), 25nat,
{
    let ghost t = tokens@;
    let ghost p = *pos as int;
    while *pos < tokens.len() && tokens[*pos].1.token_type == TokenType::Newline
        invariant
            t == tokens@,
            p == *old(pos),
            p <= *pos <= tokens.len(),
            skip_newlines(t, *pos as int) == skip_newlines(t, p),
        decreases tokens.len() - *pos,
    {
        *pos = *pos + 1;
    }
    let ghost p1 = *pos as int;
    let mut statements: Vec<Statement> = Vec::new();
    assert(block_model(&statements) =~= Seq::<StmtM>::empty());
    while *pos < tokens.len()
        invariant_except_break
            block_items(t, *pos as int, block_model(&statements)) == block_items(t, p1, seq![]),
        invariant
            t == tokens@,
            p == *old(pos),
            p <= p1 <= *pos <= tokens.len(),
            p1 == skip_newlines(t, p),
        ensures
            block_items(t, p1, seq![]) == Ok::<(Seq<StmtM>, int), Fault>(
                (block_model(&statements), *pos as int),
            ),
        decreases tokens.len() - *pos,
    {
        let k = tokens[*pos].1.token_type;
        if k == TokenType::RBrace || k == TokenType::EOF {
            break;
        }
        match parse_statement(tokens, pos) {
            Ok(Some(stmt)) => {
                let ghost before = statements;
                statements.push(stmt);
                proof {
                    lemma_stmts_push(&before, &statements, stmt);
                }
            },
            Ok(None) => {},
            Err(e) => return Err(e),
        }
    }
    Ok(statements)
}

/// A `{ ... }` body at `pos` and an optional newline after it.
fn parse_braced(tokens: &[SpannedToken], pos: &mut usize, open_msg: &str, close_msg: &str) -> (r: ParserResult<Vec<Statement>>)
    requires
        *old(pos) <= tokens.len(),
    ensures
        *final(pos) <= tokens.len(),
        *old(pos) <= *final(pos),
        r is Ok ==> *old(pos) < *final(pos),
        block_outcome(braced(tokens@, *old(pos) as int, open_msg, close_msg), r, *final(pos) as int),
    decreases tokens.len() - *old(pos), 26nat,
{
    if *pos >= tokens.len() || get_token_type(tokens, *pos) != TokenType::LBrace {
        return fail(tokens, *pos, open_msg);
    }
    *pos = *pos + 1;
    let body = match parse_block(tokens, pos) {
        Ok(b) => b,
        Err(e) => return Err(e),
    };
    if *pos >= tokens.len() || get_token_type(tokens, *pos) != TokenType::RBrace {
        return fail(tokens, *pos, close_msg);
    }
    *pos = *pos + 1;
    consume_newline(tokens, pos);
    Ok(body)
}

fn parse_if(tokens: &[SpannedToken], pos: &mut usize) -> (r: ParserResult<Option<Statement>>)
    requires
        *old(pos) < tokens.len(),
    ensures
        *final(pos) <= tokens.len(),
        *old(pos) <= *final(pos),
        r is Ok ==> *old(pos) < *final(pos),
        stmt_outcome(if_stmt(tokens@, *old(pos) as int), r, *final(pos) as int),
    decreases tokens.len() - *old(pos), 22nat,
{
    let ghost t = tokens@;
    let ghost p = *pos as int;
    *pos = *pos + 1;
    let condition = match parse_expression(tokens, pos) {
        Ok(c) => c,
        Err(e) => return Err(e),
    };
    consume_newline(tokens, pos);
    let then_branch = match parse_braced(tokens, pos, "Expected '{' after if condition", "Expected '}' after if block") {
        Ok(b) => b,
        Err(e) => return Err(e),
    };
    if word_at_pos(tokens, *pos, "else") {
        *pos = *pos + 1;
        consume_newline(tokens, pos);
        if word_at_pos(tokens, *pos, "if") {
            let nested = match parse_if(tokens, pos) {
                Ok(Some(n)) => n,
                Ok(None) => return fail(tokens, *pos, "Expected if statement"),
                Err(e) => return Err(e),
            };
            let ghost gn = nested;
            let else_body = vec![nested];
            proof {
                assert(else_body@ == seq![gn]);
                crate::ast::lemma_stmts_index(&else_body, 1);
                assert(block_model(&else_body) =~= seq![stmt_model(&gn)]);
            }
            return Ok(Some(Statement::If { condition, then_branch, else_branch: Some(else_body) }));
        }
        let else_body = match parse_braced(tokens, pos, "Expected '{' after else", "Expected '}' after else block") {
            Ok(b) => b,
            Err(e) => return Err(e),
        };
        return Ok(Some(Statement::If { condition, then_branch, else_branch: Some(else_body) }));
    }
    Ok(Some(Statement::If { condition, then_branch, else_branch: None }))
}

fn parse_while(tokens: &[SpannedToken], pos: &mut usize) -> (r: ParserResult<Option<Statement>>)
    requires
        *old(pos) < tokens.len(),
    ensures
        *final(pos) <= tokens.len(),
        *old(pos) <= *final(pos),
        r is Ok ==> *old(pos) < *final(pos),
        stmt_outcome(while_stmt(tokens@, *old(pos) as int), r, *final(pos) as int),
    decreases tokens.len() - *old(pos), 22nat,
{
    *pos = *pos + 1;
    let condition = match parse_expression(tokens, pos) {
        Ok(c) => c,
        Err(e) => return Err(e),
    };
    consume_newline(tokens, pos);
    let body = match parse_braced(tokens, pos, "Expected '{' after while condition", "Expected '}' after while block") {
        Ok(b) => b,
        Err(e) => return Err(e),
    };
    Ok(Some(Statement::While { condition, body }))
}

#[verifier::rlimit(100)]
fn parse_for(tokens: &[SpannedToken], pos: &mut usize) -> (r: ParserResult<Option<Statement>>)
    requires
        *old(pos) < tokens.len(),
    ensures
        *final(pos) <= tokens.len(),
        *old(pos) <= *final(pos),
        r is Ok ==> *old(pos) < *final(pos),
        stmt_outcome(for_stmt(tokens@, *old(pos) as int), r, *final(pos) as int),
    decreases tokens.len() - *old(pos), 22nat,
{
    *pos = *pos + 1;
    if !at_kind(tokens, *pos, TokenType::Identifier) {
        return fail(tokens, *pos, "Expected variable name after for");
    }
    let variable = token_text(tokens, *pos);
    *pos = *pos + 1;
    if !word_at_pos(tokens, *pos, "in") {
        return fail(tokens, *pos, "Expected 'in' after variable");
    }
    *pos = *pos + 1;
    let iterable = match parse_expression(tokens, pos) {
        Ok(e) => e,
        Err(e) => return Err(e),
    };
    consume_newline(tokens, pos);
    let body = match parse_braced(tokens, pos, "Expected '{' after for iterable", "Expected '}' after for block") {
        Ok(b) => b,
        Err(e) => return Err(e),
    };
    Ok(Some(Statement::For { variable, iterable, body }))
}

/// Parameter names after a `(`, as [`params`] reads them.
fn parse_params(tokens: &[SpannedToken], pos: &mut usize) -> (r: Vec<String>)
    requires
        *old(pos) <= tokens.len(),
    ensures
        *final(pos) <= tokens.len(),
        *old(pos) <= *final(pos),
        params(tokens@, *old(pos) as int, seq![]) == (r@.map_values(|x: String| x@), *final(pos) as int),
{
    let ghost t = tokens@;
    let ghost p = *pos as int;
    let mut names: Vec<String> = Vec::new();
    assert(names@.map_values(|x: String| x@) =~= Seq::<Seq<char>>::empty());
    while *pos < tokens.len()
        invariant_except_break
            params(t, *pos as int, names@.map_values(|x: String| x@)) == params(t, p, seq![]),
        invariant
            t == tokens@,
            p == *old(pos),
            p <= *pos <= tokens.len(),
        ensures
            params(t, p, seq![]) == (names@.map_values(|x: String| x@), *pos as int),
        decreases tokens.len() - *pos,
    {
        let k = tokens[*pos].1.token_type;
        if k == TokenType::RParen {
            *pos = *pos + 1;
            break;
        }
        if k != TokenType::Identifier {
            break;
        }
        match &tokens[*pos].1.value {
            Some(v) => {
                let ghost before = names@;
                names.push(v.clone());
                assert(names@.map_values(|x: String| x@) =~= before.map_values(|x: String| x@).push(v@));
            },
            None => {},
        }
        *pos = *pos + 1;
        if at_kind(tokens, *pos, TokenType::Comma) {
            *pos = *pos + 1;
        }
    }
    names
}

#[verifier::rlimit(100)]
fn parse_function_def(tokens: &[SpannedToken], pos: &mut usize) -> (r: ParserResult<Option<Statement>>)
    requires
        *old(pos) < tokens.len(),
    ensures
        *final(pos) <= tokens.len(),
        *old(pos) <= *final(pos),
        r is Ok ==> *old(pos) < *final(pos),
        stmt_outcome(function_def(tokens@, *old(pos) as int), r, *final(pos) as int),
    decreases tokens.len() - *old(pos), 22nat,
{
    *pos = *pos + 1;
    if !at_kind(tokens, *pos, TokenType::Identifier) {
        return fail(tokens, *pos, "Expected function name after fn");
    }
    let name = token_text(tokens, *pos);
    *pos = *pos + 1;
    let mut params = Vec::new();
    assert(params@.map_values(|x: String| x@) =~= Seq::<Seq<char>>::empty());
    if at_kind(tokens, *pos, TokenType::LParen) {
        *pos = *pos + 1;
        params = parse_params(tokens, pos);
    }
    consume_newline(tokens, pos);
    let body = match parse_braced(tokens, pos, "Expected '{' after function signature", "Expected '}' after function body") {
        Ok(b) => b,
        Err(e) => return Err(e),
    };
    Ok(Some(Statement::FunctionDef { name, params, body, return_value: None }))
}

fn parse_return(tokens: &[SpannedToken], pos: &mut usize) -> (r: ParserResult<Option<Statement>>)
    requires
        *old(pos) < tokens.len(),
    ensures
        *final(pos) <= tokens.len(),
        *old(pos) <= *final(pos),
        r is Ok ==> *old(pos) < *final(pos),
        stmt_outcome(return_stmt(tokens@, *old(pos) as int), r, *final(pos) as int),
    decreases tokens.len() - *old(pos), 22nat,
{
    *pos = *pos + 1;
    let value = if *pos < tokens.len() {
        let k = tokens[*pos].1.token_type;
        if k == TokenType::Newline || k == TokenType::EOF {
            None
        } else {
            match parse_expression(tokens, pos) {
                Ok(e) => Some(e),
                Err(e) => return Err(e),
            }
        }
    } else {
        None
    };
    consume_newline(tokens, pos);
    Ok(Some(Statement::Return { value }))
}

#[verifier::rlimit(100)]
fn parse_try(tokens: &[SpannedToken], pos: &mut usize) -> (r: ParserResult<Option<Statement>>)
    requires
        *old(pos) < tokens.len(),
    ensures
        *final(pos) <= tokens.len(),
        *old(pos) <= *final(pos),
        r is Ok ==> *old(pos) < *final(pos),
        stmt_outcome(try_stmt(tokens@, *old(pos) as int), r, *final(pos) as int),
    decreases tokens.len() - *old(pos), 22nat,
{
    *pos = *pos + 1;
    consume_newline(tokens, pos);
    let body = match parse_braced(tokens, pos, "Expected '{' after try", "Expected '}' after try block") {
        Ok(b) => b,
        Err(e) => return Err(e),
    };
    if *pos >= tokens.len() {
        return fail(tokens, *pos, "Expected 'catch' after try block");
    }
    if !word_at_pos(tokens, *pos, "catch") {
        return fail(tokens, *pos, "Expected 'catch'");
    }
    *pos = *pos + 1;
    let catch_var = if at_kind(tokens, *pos, TokenType::Identifier) {
        let v = token_text(tokens, *pos);
        *pos = *pos + 1;
        v
    } else {
        "e".to_owned()
    };
    consume_newline(tokens, pos);
    let catch_body = match parse_braced(tokens, pos, "Expected '{' after catch", "Expected '}' after catch block") {
        Ok(b) => b,
        Err(e) => return Err(e),
    };
    Ok(Some(Statement::Try { body, catch_var, catch_body }))
}

pub open spec fn opt_stmt_outcome(s: Parsed<Option<StmtM>>, r: ParserResult<Option<Statement>>, q: int) -> bool {
    match s {
        Ok((None, q0)) => r matches Ok(None) && q == q0,
        Ok((Some(m), q0)) => r matches Ok(Some(x)) && stmt_model(&x) == m && q == q0,
        Err(f) => r matches Err(e) && error_is(e, f),
    }
}

fn parse_statement(tokens: &[SpannedToken], pos: &mut usize) -> (r: ParserResult<Option<Statement>>)
    requires
        *old(pos) <= tokens.len(),
    ensures
        *final(pos) <= tokens.len(),
        *old(pos) <= *final(pos),
        r matches Ok(Some(_)) ==> *old(pos) < *final(pos),
        r matches Ok(None) ==> *old(pos) < *final(pos) || *old(pos) == tokens.len() || at(
            tokens@,
            *old(pos) as int,
            TokenType::RBrace,
        ) || at(tokens@, *old(pos) as int, TokenType::EOF),
        opt_stmt_outcome(statement(tokens@, *old(pos) as int), r, *final(pos) as int),
    decreases tokens.len() - *old(pos), 23nat,
{
    if *pos >= tokens.len() {
        return Ok(None);
    }
    let k = tokens[*pos].1.token_type;
    if k == TokenType::Comment || k == TokenType::Newline {
        *pos = *pos + 1;
        return parse_statement(tokens, pos);
    }
    if k == TokenType::RBrace || k == TokenType::EOF {
        return Ok(None);
    }
    if k != TokenType::Identifier {
        return fail(tokens, *pos, "Unexpected token at statement start");
    }
    let name = token_text(tokens, *pos);
    let keyword = name.as_str();
    if str_eq(keyword, "if") {
        return parse_if(tokens, pos);
    } else if str_eq(keyword, "while") {
        return parse_while(tokens, pos);
    } else if str_eq(keyword, "for") {
        return parse_for(tokens, pos);
    } else if str_eq(keyword, "fn") {
        return parse_function_def(tokens, pos);
    } else if str_eq(keyword, "return") {
        return parse_return(tokens, pos);
    } else if str_eq(keyword, "try") {
        return parse_try(tokens, pos);
    } else if str_eq(keyword, "break") {
        *pos = *pos + 1;
        consume_newline(tokens, pos);
        return Ok(Some(Statement::Break));
    } else if str_eq(keyword, "continue") {
        *pos = *pos + 1;
        consume_newline(tokens, pos);
        return Ok(Some(Statement::Continue));
    }
    *pos = *pos + 1;
    if at_kind(tokens, *pos, TokenType::Equals) {
        *pos = *pos + 1;
        let value = match parse_expression(tokens, pos) {
            Ok(e) => e,
            Err(e) => return Err(e),
        };
        return Ok(Some(Statement::Assignment { name, value }));
    }
    let mut first: Vec<Expression> = Vec::new();
    if at_kind(tokens, *pos, TokenType::LParen) {
        let name_value = name.clone();
        *pos = *pos + 1;
        let func_args = match parse_function_args(tokens, pos) {
            Ok(a) => a,
            Err(e) => return Err(e),
        };
        let call = Expression::FunctionCall { name: name_value, args: func_args };
        let ghost gc = call;
        let ghost empty = first;
        first.push(call);
        proof {
            lemma_exprs_push(&empty, &first, gc);
            assert(list_model(&empty) =~= Seq::<ExprM>::empty());
            assert(list_model(&first) =~= seq![expr_model(&gc)]);
        }
    } else {
        assert(list_model(&first) =~= Seq::<ExprM>::empty());
    }
    let args = match parse_command_arguments(tokens, pos, first) {
        Ok(a) => a,
        Err(e) => return Err(e),
    };
    Ok(Some(Statement::Command { name, args }))
}

/// Parses a whole token sequence into a [`Program`]: the statements of
/// [`program`], or an error when it fails.
pub fn parse(tokens: Vec<SpannedToken>) -> (r: ParserResult<Program>)
    ensures
        match program(tokens@) {
            Ok(m) => r is Ok && r->Ok_0.model() == m,
            Err(f) => r matches Err(e) && error_is(e, f),
        },
{
    let ghost t = tokens@;
    let toks = tokens.as_slice();
    let mut statements: Vec<Statement> = Vec::new();
    let mut pos: usize = 0;
    assert(block_model(&statements) =~= Seq::<StmtM>::empty());
    while pos < toks.len()
        invariant_except_break
            program_items(t, pos as int, block_model(&statements)) == program(t),
        invariant
            t == toks@,
            t == tokens@,
            pos <= toks.len(),
        ensures
            program(t) == Ok::<Seq<StmtM>, Fault>(block_model(&statements)),
        decreases toks.len() - pos,
    {
        let ghost q = pos as int;
        match parse_statement(toks, &mut pos) {
            Ok(Some(stmt)) => {
                let ghost before = statements;
                statements.push(stmt);
                proof {
                    lemma_stmts_push(&before, &statements, stmt);
                }
            },
            Ok(None) => {
                break;
            },
            Err(e) => {
                assert(program_items(t, q, block_model(&statements)) is Err);
                return Err(e);
            },
        }
    }
    Ok(Program(statements))
}

} // verus!
