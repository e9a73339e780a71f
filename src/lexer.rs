//! The scanner: source text to a sequence of spanned tokens.
//!
//! The scanning rules are stated over the characters of the source as spec
//! functions (`scan_at`, `lex`); the executable scanner is proved to follow
//! them. Spans are byte offsets into the UTF-8 text.
use vstd::prelude::*;
use vstd::utf8::*;
use crate::text::{
    chars_of,    digits_value, is_alphabetic, is_alphanumeric, is_digit, is_whitespace, push_char,
    unicode_alphabetic, unicode_alphanumeric, unicode_whitespace,
};

verus! {

broadcast use vstd::utf8::char_is_scalar;

#[derive(Debug, Clone, Copy, PartialEq, Eq, Hash, Structural)]
pub enum TokenType {
    Identifier,
    Integer,
    Boolean,
    Null,
    String,
    InterpolatedString,
    Equals,
    Plus,
    Minus,
    Star,
    Slash,
    Percent,
    EqEq,
    NotEq,
    Less,
    Greater,
    LessEq,
    GreaterEq,
    And,
    Or,
    Not,
    LParen,
    RParen,
    LBracket,
    RBracket,
    LBrace,
    RBrace,
    Comma,
    Colon,
    Arrow,
    Newline,
    Whitespace,
    Comment,
    EOF,
}

/// One token: its kind, its byte span and, for kinds that carry text, the text.
#[derive(Debug, PartialEq)]
pub struct Token {
    pub token_type: TokenType,
    pub span: (usize, usize),
    pub value: Option<String>,
}

impl Token {
    pub fn new(token_type: TokenType, start: usize, end: usize, value: Option<String>) -> (r: Self)
        ensures
            r.token_type == token_type,
            r.span == (start, end),
            r.value == value,
    {
        Token { token_type, span: (start, end), value }
    }
}

/// A token with its start and end byte offsets.
pub type SpannedToken = (usize, Token, usize);

/// A scanning failure: the offending character or unterminated string, the
/// whole source text, and the byte span to point at.
#[derive(Debug)]
pub enum LexerError {
    UnexpectedChar { found: char, src: String, span: (usize, usize) },
    UnterminatedString { src: String, span: (usize, usize) },
}

/// Model of a token: kind, text payload and byte span.
pub struct TokM {
    pub kind: TokenType,
    pub value: Option<Seq<char>>,
    pub start: nat,
    pub end: nat,
}

/// Model of a scanning failure, without the source text it carries.
pub enum LexFault {
    UnexpectedChar { found: char, start: nat, end: nat },
    UnterminatedString { start: nat, end: nat },
}

pub open spec fn opt_text(v: Option<String>) -> Option<Seq<char>> {
    match v {
        Some(s) => Some(s@),
        None => None,
    }
}

/// `t` is the token that `m` describes.
pub open spec fn token_is(t: SpannedToken, m: TokM) -> bool {
    &&& t.0 == m.start
    &&& t.2 == m.end
    &&& t.1.span.0 == m.start
    &&& t.1.span.1 == m.end
    &&& t.1.token_type == m.kind
    &&& opt_text(t.1.value) == m.value
}

pub open spec fn tokens_are(v: Seq<SpannedToken>, ms: Seq<TokM>) -> bool {
    &&& v.len() == ms.len()
    &&& forall|i: int| 0 <= i < v.len() ==> #[trigger] token_is(v[i], ms[i])
}

/// `e` is the failure that `f` describes, on source `s`.
pub open spec fn error_is(e: LexerError, f: LexFault, s: Seq<char>) -> bool {
    match (e, f) {
        (LexerError::UnexpectedChar { found, src, span }, LexFault::UnexpectedChar { found: c, start, end }) =>
            found == c && src@ == s && span.0 == start && span.1 == end,
        (LexerError::UnterminatedString { src, span }, LexFault::UnterminatedString { start, end }) =>
            src@ == s && span.0 == start && span.1 == end,
        _ => false,
    }
}

/// Number of bytes of the UTF-8 encoding of `s`.
pub open spec fn byte_len(s: Seq<char>) -> nat {
    encode_utf8(s).len()
}

/// Byte offset of the character at index `i` of `s`.
pub open spec fn offset(s: Seq<char>, i: int) -> nat {
    byte_len(s.take(i))
}

/// Whitespace that the scanner skips: all of it but the newline.
pub open spec fn skippable(c: char) -> bool {
    unicode_whitespace(c) && c != '\n'
}

pub open spec fn skip_spaces(s: Seq<char>, i: int) -> int
    decreases s.len() - i,
{
    if 0 <= i < s.len() && skippable(s[i]) {
        skip_spaces(s, i + 1)
    } else {
        i
    }
}

pub open spec fn ident_char(c: char) -> bool {
    unicode_alphanumeric(c) || c == '_' || c == '.'
}

/// End of the run of identifier characters that starts at `i`.
pub open spec fn ident_end(s: Seq<char>, i: int) -> int
    decreases s.len() - i,
{
    if 0 <= i < s.len() && ident_char(s[i]) {
        ident_end(s, i + 1)
    } else {
        i
    }
}

/// End of the run of decimal digits that starts at `i`.
pub open spec fn digits_end(s: Seq<char>, i: int) -> int
    decreases s.len() - i,
{
    if 0 <= i < s.len() && is_digit(s[i]) {
        digits_end(s, i + 1)
    } else {
        i
    }
}

/// Index of the first newline at or after `i`, or the end of `s`.
pub open spec fn line_end(s: Seq<char>, i: int) -> int
    decreases s.len() - i,
{
    if 0 <= i < s.len() && s[i] != '\n' {
        line_end(s, i + 1)
    } else {
        i
    }
}

/// Body of a single-quoted string from index `i` (after the opening quote),
/// with `acc` read so far: the content, and the index after the closing
/// quote; `None` when the text ends first. A backslash takes the next
/// character literally.
pub open spec fn single_quoted(s: Seq<char>, i: int, acc: Seq<char>) -> Option<(Seq<char>, int)>
    decreases s.len() - i,
{
    if i < 0 || i >= s.len() {
        None
    } else if s[i] == '\'' {
        Some((acc, i + 1))
    } else if s[i] == '\\' {
        if i + 1 < s.len() {
            single_quoted(s, i + 2, acc.push(s[i + 1]))
        } else {
            None
        }
    } else {
        single_quoted(s, i + 1, acc.push(s[i]))
    }
}

/// Body of a double-quoted string from index `i`: the content and the index
/// where scanning stopped. It stops after the closing quote, before a
/// newline, or at the end of the text, without error.
pub open spec fn double_quoted(s: Seq<char>, i: int, acc: Seq<char>) -> (Seq<char>, int)
    decreases s.len() - i,
{
    if i < 0 || i >= s.len() {
        (acc, i)
    } else if s[i] == '"' {
        (acc, i + 1)
    } else if s[i] == '\\' {
        if i + 1 < s.len() {
            double_quoted(s, i + 2, acc.push(s[i + 1]))
        } else {
            (acc, i + 1)
        }
    } else if s[i] == '\n' {
        (acc, i)
    } else {
        double_quoted(s, i + 1, acc.push(s[i]))
    }
}

/// Kind of a scanned word: the reserved forms get kinds of their own.
pub open spec fn word_kind(w: Seq<char>) -> TokenType {
    if w == seq!['t', 'r', 'u', 'e'] || w == seq!['f', 'a', 'l', 's', 'e'] {
        TokenType::Boolean
    } else if w == seq!['n', 'u', 'l', 'l'] {
        TokenType::Null
    } else if w == seq!['a', 'n', 'd'] {
        TokenType::And
    } else if w == seq!['o', 'r'] {
        TokenType::Or
    } else if w == seq!['n', 'o', 't'] {
        TokenType::Not
    } else {
        TokenType::Identifier
    }
}

/// Outcome of scanning one token at a given index.
pub enum Scan {
    Token { kind: TokenType, value: Option<Seq<char>>, end: int },
    Unterminated,
    Unexpected,
}

/// A token of one or two characters: `second` is chosen when the next
/// character is `next`.
pub open spec fn one_or_two(s: Seq<char>, i: int, next: char, second: TokenType, first: TokenType) -> Scan {
    if i + 1 < s.len() && s[i + 1] == next {
        Scan::Token { kind: second, value: None, end: i + 2 }
    } else {
        Scan::Token { kind: first, value: None, end: i + 1 }
    }
}

pub open spec fn single(kind: TokenType, i: int) -> Scan {
    Scan::Token { kind, value: None, end: i + 1 }
}

/// The token that starts at index `i` of `s`.
pub open spec fn scan_at(s: Seq<char>, i: int) -> Scan {
    let c = s[i];
    if c == '#' {
        Scan::Token { kind: TokenType::Comment, value: None, end: line_end(s, i) }
    } else if c == '\n' {
        single(TokenType::Newline, i)
    } else if c == '"' {
        let (v, e) = double_quoted(s, i + 1, seq![]);
        Scan::Token { kind: TokenType::InterpolatedString, value: Some(v), end: e }
    } else if c == '\'' {
        match single_quoted(s, i + 1, seq![]) {
            Some((v, e)) => Scan::Token { kind: TokenType::String, value: Some(v), end: e },
            None => Scan::Unterminated,
        }
    } else if unicode_alphabetic(c) || c == '_' {
        let e = ident_end(s, i);
        let w = s.subrange(i, e);
        Scan::Token { kind: word_kind(w), value: Some(w), end: e }
    } else if is_digit(c) {
        let e = digits_end(s, i);
        Scan::Token { kind: TokenType::Integer, value: Some(s.subrange(i, e)), end: e }
    } else if c == '=' {
        one_or_two(s, i, '=', TokenType::EqEq, TokenType::Equals)
    } else if c == '!' {
        one_or_two(s, i, '=', TokenType::NotEq, TokenType::Not)
    } else if c == '<' {
        one_or_two(s, i, '=', TokenType::LessEq, TokenType::Less)
    } else if c == '>' {
        one_or_two(s, i, '=', TokenType::GreaterEq, TokenType::Greater)
    } else if c == '-' {
        one_or_two(s, i, '>', TokenType::Arrow, TokenType::Minus)
    } else if c == '+' {
        single(TokenType::Plus, i)
    } else if c == '*' {
        single(TokenType::Star, i)
    } else if c == '/' {
        single(TokenType::Slash, i)
    } else if c == '%' {
        single(TokenType::Percent, i)
    } else if c == '(' {
        single(TokenType::LParen, i)
    } else if c == ')' {
        single(TokenType::RParen, i)
    } else if c == '[' {
        single(TokenType::LBracket, i)
    } else if c == ']' {
        single(TokenType::RBracket, i)
    } else if c == '{' {
        single(TokenType::LBrace, i)
    } else if c == '}' {
        single(TokenType::RBrace, i)
    } else if c == ',' {
        single(TokenType::Comma, i)
    } else if c == ':' {
        single(TokenType::Colon, i)
    } else {
        Scan::Unexpected
    }
}

/// The tokens of `s` from index `i` on, end-of-input marker excluded, or the
/// first failure.
pub open spec fn lex_from(s: Seq<char>, i: int) -> Result<Seq<TokM>, LexFault>
    decreases s.len() - i,
{
    let j = skip_spaces(s, i);
    if j < 0 || j >= s.len() {
        Ok(seq![])
    } else {
        match scan_at(s, j) {
            Scan::Token { kind, value, end } => {
                if i <= j < end <= s.len() {
                    let t = TokM { kind, value, start: offset(s, j), end: offset(s, end) };
                    match lex_from(s, end) {
                        Ok(rest) => Ok(seq![t] + rest),
                        Err(f) => Err(f),
                    }
                } else {
                    Ok(seq![])
                }
            },
            Scan::Unterminated => Err(
                LexFault::UnterminatedString { start: offset(s, j), end: byte_len(s) },
            ),
            Scan::Unexpected => Err(
                LexFault::UnexpectedChar { found: s[j], start: offset(s, j), end: offset(s, j + 1) },
            ),
        }
    }
}

/// What one call of [`Lexer::next`] does from index `i`: `r` is its result
/// and `i2` the index after it.
pub open spec fn step_is(
    s: Seq<char>,
    i: int,
    r: Option<Result<SpannedToken, LexerError>>,
    i2: int,
) -> bool {
    let j = skip_spaces(s, i);
    if j >= s.len() {
        r is None && i2 == j
    } else {
        match scan_at(s, j) {
            Scan::Token { kind, value, end } => {
                &&& r matches Some(Ok(t)) && token_is(
                    t,
                    TokM { kind, value, start: offset(s, j), end: offset(s, end) },
                )
                &&& i2 == end
                &&& i <= j < end <= s.len()
            },
            Scan::Unterminated => r matches Some(Err(e)) && error_is(
                e,
                LexFault::UnterminatedString { start: offset(s, j), end: byte_len(s) },
                s,
            ),
            Scan::Unexpected => r matches Some(Err(e)) && error_is(
                e,
                LexFault::UnexpectedChar { found: s[j], start: offset(s, j), end: offset(s, j + 1) },
                s,
            ),
        }
    }
}

proof fn lemma_skip_ge(s: Seq<char>, i: int)
    requires
        0 <= i <= s.len(),
    ensures
        i <= skip_spaces(s, i) <= s.len(),
    decreases s.len() - i,
{
    if i < s.len() && skippable(s[i]) {
        lemma_skip_ge(s, i + 1);
    }
}

proof fn lemma_run_ends(s: Seq<char>, i: int)
    requires
        0 <= i <= s.len(),
    ensures
        i <= ident_end(s, i) <= s.len(),
        i <= digits_end(s, i) <= s.len(),
        i <= line_end(s, i) <= s.len(),
        i < s.len() && ident_char(s[i]) ==> i < ident_end(s, i),
        i < s.len() && is_digit(s[i]) ==> i < digits_end(s, i),
        i < s.len() && s[i] != '\n' ==> i < line_end(s, i),
    decreases s.len() - i,
{
    if i < s.len() {
        lemma_run_ends(s, i + 1);
    }
}

proof fn lemma_single_quoted_end(s: Seq<char>, i: int, acc: Seq<char>)
    requires
        0 <= i,
    ensures
        single_quoted(s, i, acc) matches Some((_, e)) ==> i < e <= s.len(),
    decreases s.len() - i,
{
    if 0 <= i < s.len() && s[i] != '\'' {
        if s[i] == '\\' {
            if i + 1 < s.len() {
                lemma_single_quoted_end(s, i + 2, acc.push(s[i + 1]));
            }
        } else {
            lemma_single_quoted_end(s, i + 1, acc.push(s[i]));
        }
    }
}

proof fn lemma_double_quoted_end(s: Seq<char>, i: int, acc: Seq<char>)
    requires
        0 <= i <= s.len(),
    ensures
        i <= double_quoted(s, i, acc).1 <= s.len(),
    decreases s.len() - i,
{
    if 0 <= i < s.len() && s[i] != '"' && s[i] != '\n' {
        if s[i] == '\\' {
            if i + 1 < s.len() {
                lemma_double_quoted_end(s, i + 2, acc.push(s[i + 1]));
            }
        } else {
            lemma_double_quoted_end(s, i + 1, acc.push(s[i]));
        }
    }
}

/// The end-of-input marker after `n` tokens: its span is the token count.
pub open spec fn eof_token(n: nat) -> TokM {
    TokM { kind: TokenType::EOF, value: None, start: n, end: n }
}

/// The complete token sequence of `s`, or the first failure.
pub open spec fn lex(s: Seq<char>) -> Result<Seq<TokM>, LexFault> {
    match lex_from(s, 0) {
        Ok(ts) => Ok(ts.push(eof_token(ts.len()))),
        Err(f) => Err(f),
    }
}

pub open spec fn width(c: char) -> nat {
    let u = c as u32;
    if u <= 0x7f {
        1
    } else if u <= 0x7ff {
        2
    } else if u <= 0xffff {
        3
    } else {
        4
    }
}

proof fn lemma_encode_concat(a: Seq<char>, b: Seq<char>)
    ensures
        encode_utf8(a + b) == encode_utf8(a) + encode_utf8(b),
    decreases a.len(),
{
    if a.len() > 0 {
        lemma_encode_concat(a.drop_first(), b);
        assert((a + b).drop_first() =~= a.drop_first() + b);
        assert(encode_utf8(a + b) =~= encode_utf8(a) + encode_utf8(b));
    }
}

proof fn lemma_offset_step(s: Seq<char>, i: int)
    requires
        0 <= i < s.len(),
    ensures
        offset(s, i + 1) == offset(s, i) + width(s[i]),
        offset(s, i + 1) <= byte_len(s),
{
    let c = s[i];
    lemma_encode_concat(s.take(i), seq![c]);
    assert(s.take(i + 1) =~= s.take(i) + seq![c]);
    assert(seq![c].drop_first() =~= Seq::<char>::empty());
    reveal_with_fuel(encode_utf8, 2);
    assert(encode_utf8(seq![c]) =~= encode_scalar(c as u32));
    char_is_scalar(c);
    assert(encode_scalar(c as u32).len() == width(c));
    lemma_encode_concat(s.take(i + 1), s.skip(i + 1));
    assert(s =~= s.take(i + 1) + s.skip(i + 1));
}

proof fn lemma_offset_zero(s: Seq<char>)
    ensures
        offset(s, 0) == 0,
{
    assert(s.take(0) =~= Seq::<char>::empty());
}

proof fn lemma_offset_end(s: Seq<char>)
    ensures
        offset(s, s.len() as int) == byte_len(s),
{
    assert(s.take(s.len() as int) =~= s);
}

fn char_width(c: char) -> (w: usize)
    ensures
        w == width(c),
{
    let u = c as u32;
    if u <= 0x7f {
        1
    } else if u <= 0x7ff {
        2
    } else if u <= 0xffff {
        3
    } else {
        4
    }
}

/// The scanner's state: the source, its characters, and the position of the
/// next character to read, as a character index and as a byte offset.
pub struct Lexer {
    input: String,
    chars: Vec<char>,
    idx: usize,
    pos: usize,
    current_char: Option<char>,
}

impl Lexer {
    /// The characters being scanned.
    pub closed spec fn source(&self) -> Seq<char> {
        self.chars@
    }

    /// Index of the next character to read.
    pub closed spec fn index(&self) -> int {
        self.idx as int
    }

    pub closed spec fn wf(&self) -> bool {
        &&& self.input@ == self.chars@
        &&& self.idx <= self.chars.len()
        &&& self.pos == offset(self.chars@, self.idx as int)
        &&& byte_len(self.chars@) <= usize::MAX
        &&& self.current_char == if self.idx < self.chars.len() {
            Some(self.chars@[self.idx as int])
        } else {
            None
        }
    }

    pub fn new(input: &str) -> (r: Self)
        requires
            byte_len(input@) <= usize::MAX,
        ensures
            r.wf(),
            r.source() == input@,
            r.index() == 0,
    {
        let chars = chars_of(input);
        let current_char = if chars.len() > 0 {
            Some(chars[0])
        } else {
            None
        };
        proof {
            lemma_offset_zero(chars@);
        }
        Lexer { input: input.to_owned(), chars, idx: 0, pos: 0, current_char }
    }

    proof fn lemma_extend(&self, start: int, v: Seq<char>, c: char)
        requires
            self.wf(),
            0 <= start <= self.idx < self.chars.len(),
            v == self.chars@.subrange(start, self.idx as int),
            self.current_char == Some(c),
        ensures
            v.push(c) == self.chars@.subrange(start, self.idx + 1),
    {
        assert(v.push(c) =~= self.chars@.subrange(start, self.idx + 1));
    }

    fn advance(&mut self)
        requires
            old(self).wf(),
            old(self).idx < old(self).chars.len(),
        ensures
            final(self).wf(),
            final(self).chars == old(self).chars,
            final(self).input == old(self).input,
            final(self).idx == old(self).idx + 1,
    {
        proof {
            lemma_offset_step(self.chars@, self.idx as int);
        }
        let w = char_width(self.chars[self.idx]);
        self.pos = self.pos + w;
        self.idx = self.idx + 1;
        self.current_char = if self.idx < self.chars.len() {
            Some(self.chars[self.idx])
        } else {
            None
        };
    }

    fn skip_whitespace(&mut self)
        requires
            old(self).wf(),
        ensures
            final(self).wf(),
            final(self).chars == old(self).chars,
            final(self).input == old(self).input,
            final(self).idx == skip_spaces(old(self).chars@, old(self).idx as int),
    {
        while self.current_char.is_some()
            invariant
                self.wf(),
                self.chars == old(self).chars,
                self.input == old(self).input,
                skip_spaces(self.chars@, self.idx as int) == skip_spaces(
                    old(self).chars@,
                    old(self).idx as int,
                ),
            ensures
                skip_spaces(self.chars@, self.idx as int) == self.idx,
            decreases self.chars.len() - self.idx,
        {
            let c = self.current_char.unwrap();
            if is_whitespace(c) && c != '\n' {
                self.advance();
            } else {
                break;
            }
        }
    }

    fn skip_comment(&mut self)
        requires
            old(self).wf(),
        ensures
            final(self).wf(),
            final(self).chars == old(self).chars,
            final(self).input == old(self).input,
            final(self).idx == line_end(old(self).chars@, old(self).idx as int),
    {
        while self.current_char.is_some()
            invariant
                self.wf(),
                self.chars == old(self).chars,
                self.input == old(self).input,
                line_end(self.chars@, self.idx as int) == line_end(
                    old(self).chars@,
                    old(self).idx as int,
                ),
            ensures
                line_end(self.chars@, self.idx as int) == self.idx,
            decreases self.chars.len() - self.idx,
        {
            let c = self.current_char.unwrap();
            if c == '\n' {
                break;
            }
            self.advance();
        }
    }

    fn read_identifier(&mut self) -> (r: String)
        requires
            old(self).wf(),
        ensures
            final(self).wf(),
            final(self).chars == old(self).chars,
            final(self).input == old(self).input,
            final(self).idx == ident_end(old(self).chars@, old(self).idx as int),
            r@ == old(self).chars@.subrange(old(self).idx as int, final(self).idx as int),
    {
        let ghost start = self.idx as int;
        let mut value = String::new();
        while self.current_char.is_some()
            invariant
                self.wf(),
                self.chars == old(self).chars,
                self.input == old(self).input,
                0 <= start <= self.idx,
                ident_end(self.chars@, self.idx as int) == ident_end(self.chars@, start),
                value@ == self.chars@.subrange(start, self.idx as int),
            ensures
                ident_end(self.chars@, self.idx as int) == self.idx,
            decreases self.chars.len() - self.idx,
        {
            let c = self.current_char.unwrap();
            if is_alphanumeric(c) || c == '_' || c == '.' {
                proof {
                    self.lemma_extend(start, value@, c);
                }
                push_char(&mut value, c);
                self.advance();
            } else {
                break;
            }
        }
        value
    }

    fn read_number(&mut self) -> (r: String)
        requires
            old(self).wf(),
        ensures
            final(self).wf(),
            final(self).chars == old(self).chars,
            final(self).input == old(self).input,
            final(self).idx == digits_end(old(self).chars@, old(self).idx as int),
            r@ == old(self).chars@.subrange(old(self).idx as int, final(self).idx as int),
    {
        let ghost start = self.idx as int;
        let mut value = String::new();
        while self.current_char.is_some()
            invariant
                self.wf(),
                self.chars == old(self).chars,
                self.input == old(self).input,
                0 <= start <= self.idx,
                digits_end(self.chars@, self.idx as int) == digits_end(self.chars@, start),
                value@ == self.chars@.subrange(start, self.idx as int),
            ensures
                digits_end(self.chars@, self.idx as int) == self.idx,
            decreases self.chars.len() - self.idx,
        {
            let c = self.current_char.unwrap();
            if '0' <= c && c <= '9' {
                proof {
                    self.lemma_extend(start, value@, c);
                }
                push_char(&mut value, c);
                self.advance();
            } else {
                break;
            }
        }
        value
    }

    /// Reads a single-quoted string; the current character is the opening quote.
    fn read_string(&mut self) -> (r: Result<String, LexerError>)
        requires
            old(self).wf(),
            old(self).idx < old(self).chars.len(),
        ensures
            final(self).wf(),
            final(self).chars == old(self).chars,
            final(self).input == old(self).input,
            match single_quoted(old(self).chars@, old(self).idx + 1, seq![]) {
                Some((v, e)) => r is Ok && r->Ok_0@ == v && final(self).idx == e,
                None => error_is(
                    r->Err_0,
                    LexFault::UnterminatedString {
                        start: offset(old(self).chars@, old(self).idx as int),
                        end: byte_len(old(self).chars@),
                    },
                    old(self).chars@,
                ) && r is Err,
            },
    {
        let start = self.pos;
        self.advance();
        let ghost first = self.idx as int;
        let mut value = String::new();
        while self.current_char.is_some()
            invariant
                self.wf(),
                self.chars == old(self).chars,
                self.input == old(self).input,
                first == old(self).idx + 1,
                first <= self.idx,
                start == offset(self.chars@, first - 1),
                single_quoted(self.chars@, self.idx as int, value@) == single_quoted(
                    self.chars@,
                    first,
                    seq![],
                ),
            decreases self.chars.len() - self.idx,
        {
            let c = self.current_char.unwrap();
            if c == '\'' {
                self.advance();
                return Ok(value);
            } else if c == '\\' {
                self.advance();
                if self.current_char.is_some() {
                    let escaped = self.current_char.unwrap();
                    push_char(&mut value, escaped);
                    self.advance();
                }
            } else {
                push_char(&mut value, c);
                self.advance();
            }
        }
        proof {
            lemma_offset_end(self.chars@);
        }
        Err(LexerError::UnterminatedString { src: self.input.clone(), span: (start, self.pos) })
    }

    /// Whether the current character is `ch`.
    fn peek_is(&self, ch: char) -> (r: bool)
        ensures
            r == (self.current_char == Some(ch)),
    {
        match self.current_char {
            Some(c) => c == ch,
            None => false,
        }
    }

    /// Whether the characters from `start` to the current index spell `w`.
    fn word_is(&self, start: usize, w: &str) -> (r: bool)
        requires
            self.wf(),
            start <= self.idx,
        ensures
            r == (self.chars@.subrange(start as int, self.idx as int) == w@),
    {
        let n = w.unicode_len();
        if self.idx - start != n {
            return false;
        }
        let mut k: usize = 0;
        while k < n
            invariant
                self.wf(),
                start <= self.idx,
                self.idx - start == n,
                n == w@.len(),
                k <= n,
                forall|m: int| 0 <= m < k ==> self.chars@[start + m] == w@[m],
            decreases n - k,
        {
            if self.chars[start + k] != w.get_char(k) {
                assert(self.chars@.subrange(start as int, self.idx as int)[k as int] != w@[k as int]);
                return false;
            }
            k = k + 1;
        }
        assert(self.chars@.subrange(start as int, self.idx as int) =~= w@);
        true
    }

    /// Kind of the word that ends at the current index and starts at `start`.
    fn word_kind(&self, start: usize) -> (r: TokenType)
        requires
            self.wf(),
            start <= self.idx,
        ensures
            r == word_kind(self.chars@.subrange(start as int, self.idx as int)),
    {
        proof {
            reveal_strlit("true");
            reveal_strlit("false");
            reveal_strlit("null");
            reveal_strlit("and");
            reveal_strlit("or");
            reveal_strlit("not");
        }
        let ghost w = self.chars@.subrange(start as int, self.idx as int);
        if self.word_is(start, "true") || self.word_is(start, "false") {
            assert(w == seq!['t', 'r', 'u', 'e'] || w == seq!['f', 'a', 'l', 's', 'e']) by {
                if w == "true"@ {
                    assert("true"@ =~= seq!['t', 'r', 'u', 'e']);
                } else {
                    assert("false"@ =~= seq!['f', 'a', 'l', 's', 'e']);
                }
            }
            return TokenType::Boolean;
        }
        assert(w != seq!['t', 'r', 'u', 'e'] && w != seq!['f', 'a', 'l', 's', 'e']) by {
            assert("true"@ =~= seq!['t', 'r', 'u', 'e']);
            assert("false"@ =~= seq!['f', 'a', 'l', 's', 'e']);
        }
        assert("null"@ =~= seq!['n', 'u', 'l', 'l']);
        assert("and"@ =~= seq!['a', 'n', 'd']);
        assert("or"@ =~= seq!['o', 'r']);
        assert("not"@ =~= seq!['n', 'o', 't']);
        if self.word_is(start, "null") {
            TokenType::Null
        } else if self.word_is(start, "and") {
            TokenType::And
        } else if self.word_is(start, "or") {
            TokenType::Or
        } else if self.word_is(start, "not") {
            TokenType::Not
        } else {
            TokenType::Identifier
        }
    }

    /// Reads an operator of one character, or of two when the second is `next`.
    fn one_or_two(&mut self, next: char, second: TokenType, first: TokenType) -> (r: TokenType)
        requires
            old(self).wf(),
            old(self).idx < old(self).chars.len(),
        ensures
            final(self).wf(),
            final(self).chars == old(self).chars,
            final(self).input == old(self).input,
            one_or_two(old(self).chars@, old(self).idx as int, next, second, first) == (Scan::Token {
                kind: r,
                value: None,
                end: final(self).idx as int,
            }),
    {
        self.advance();
        if self.peek_is(next) {
            self.advance();
            second
        } else {
            first
        }
    }

    /// Reads an operator or delimiter of one character.
    fn single(&mut self, kind: TokenType) -> (r: TokenType)
        requires
            old(self).wf(),
            old(self).idx < old(self).chars.len(),
        ensures
            final(self).wf(),
            final(self).chars == old(self).chars,
            final(self).input == old(self).input,
            single(kind, old(self).idx as int) == (Scan::Token {
                kind: r,
                value: None,
                end: final(self).idx as int,
            }),
    {
        self.advance();
        kind
    }

    /// Scans the next token: `None` at the end of the input, else the token
    /// or the failure that [`scan_at`] gives after skipping whitespace.
    pub fn next(&mut self) -> (r: Option<Result<SpannedToken, LexerError>>)
        requires
            old(self).wf(),
        ensures
            final(self).wf(),
            final(self).source() == old(self).source(),
            step_is(old(self).source(), old(self).index(), r, final(self).index()),
    {
        let ghost s = self.chars@;
        proof {
            lemma_skip_ge(s, self.idx as int);
        }
        self.skip_whitespace();
        if self.current_char.is_none() {
            return None;
        }
        let ghost j = self.idx as int;
        proof {
            lemma_run_ends(s, j);
            lemma_single_quoted_end(s, j + 1, seq![]);
            lemma_double_quoted_end(s, j + 1, seq![]);
            lemma_offset_end(s);
        }
        let start = self.pos;
        let c = self.current_char.unwrap();
        let kind: TokenType;
        let mut value: Option<String> = None;
        if c == '#' {
            self.skip_comment();
            kind = TokenType::Comment;
        } else if c == '\n' {
            kind = self.single(TokenType::Newline);
        } else if c == '"' {
            let content = self.read_double_string();
            kind = TokenType::InterpolatedString;
            value = Some(content);
        } else if c == '\'' {
            match self.read_string() {
                Ok(content) => {
                    kind = TokenType::String;
                    value = Some(content);
                },
                Err(e) => {
                    return Some(Err(e));
                },
            }
        } else if is_alphabetic(c) || c == '_' {
            let begin = self.idx;
            let word = self.read_identifier();
            kind = self.word_kind(begin);
            value = Some(word);
        } else if '0' <= c && c <= '9' {
            let digits = self.read_number();
            kind = TokenType::Integer;
            value = Some(digits);
        } else if c == '=' {
            kind = self.one_or_two('=', TokenType::EqEq, TokenType::Equals);
        } else if c == '!' {
            kind = self.one_or_two('=', TokenType::NotEq, TokenType::Not);
        } else if c == '<' {
            kind = self.one_or_two('=', TokenType::LessEq, TokenType::Less);
        } else if c == '>' {
            kind = self.one_or_two('=', TokenType::GreaterEq, TokenType::Greater);
        } else if c == '-' {
            kind = self.one_or_two('>', TokenType::Arrow, TokenType::Minus);
        } else if c == '+' {
            kind = self.single(TokenType::Plus);
        } else if c == '*' {
            kind = self.single(TokenType::Star);
        } else if c == '/' {
            kind = self.single(TokenType::Slash);
        } else if c == '%' {
            kind = self.single(TokenType::Percent);
        } else if c == '(' {
            kind = self.single(TokenType::LParen);
        } else if c == ')' {
            kind = self.single(TokenType::RParen);
        } else if c == '[' {
            kind = self.single(TokenType::LBracket);
        } else if c == ']' {
            kind = self.single(TokenType::RBracket);
        } else if c == '{' {
            kind = self.single(TokenType::LBrace);
        } else if c == '}' {
            kind = self.single(TokenType::RBrace);
        } else if c == ',' {
            kind = self.single(TokenType::Comma);
        } else if c == ':' {
            kind = self.single(TokenType::Colon);
        } else {
            self.advance();
            return Some(Err(LexerError::UnexpectedChar {
                found: c,
                src: self.input.clone(),
                span: (start, self.pos),
            }));
        }
        let end = self.pos;
        Some(Ok((start, Token::new(kind, start, end, value), end)))
    }

    /// Reads a double-quoted string; the current character is the opening quote.
    fn read_double_string(&mut self) -> (r: String)
        requires
            old(self).wf(),
            old(self).idx < old(self).chars.len(),
        ensures
            final(self).wf(),
            final(self).chars == old(self).chars,
            final(self).input == old(self).input,
            (r@, final(self).idx as int) == double_quoted(old(self).chars@, old(self).idx + 1, seq![]),
    {
        self.advance();
        let ghost first = self.idx as int;
        let mut value = String::new();
        while self.current_char.is_some()
            invariant_except_break
                double_quoted(self.chars@, self.idx as int, value@) == double_quoted(
                    self.chars@,
                    first,
                    seq![],
                ),
            invariant
                self.wf(),
                self.chars == old(self).chars,
                self.input == old(self).input,
                first == old(self).idx + 1,
                first <= self.idx,
            ensures
                (value@, self.idx as int) == double_quoted(self.chars@, first, seq![]),
            decreases self.chars.len() - self.idx,
        {
            let c = self.current_char.unwrap();
            if c == '"' {
                self.advance();
                break;
            } else if c == '\\' {
                self.advance();
                if self.current_char.is_some() {
                    let escaped = self.current_char.unwrap();
                    push_char(&mut value, escaped);
                    self.advance();
                }
            } else if c == '\n' {
                break;
            } else {
                push_char(&mut value, c);
                self.advance();
            }
        }
        value
    }
}

/// Escaped form of `c` inside a single-quoted literal: a backslash before
/// each quote and each backslash.
pub open spec fn escape_single(c: Seq<char>) -> Seq<char>
    decreases c.len(),
{
    if c.len() == 0 {
        seq![]
    } else {
        let x = c[0];
        let head = if x == '\'' || x == '\\' {
            seq!['\\', x]
        } else {
            seq![x]
        };
        head + escape_single(c.drop_first())
    }
}

proof fn lemma_single_quoted_escaped(s: Seq<char>, k: int, c: Seq<char>, acc: Seq<char>)
    requires
        0 <= k,
        k + escape_single(c).len() < s.len(),
        s.subrange(k, k + escape_single(c).len()) == escape_single(c),
        s[k + escape_single(c).len()] == '\'',
    ensures
        single_quoted(s, k, acc) == Some((acc + c, k + escape_single(c).len() + 1)),
    decreases c.len(),
{
    let e = escape_single(c);
    if c.len() == 0 {
        assert(acc + c =~= acc);
    } else {
        let x = c[0];
        let rest = c.drop_first();
        let er = escape_single(rest);
        let w: int = if x == '\'' || x == '\\' { 2 } else { 1 };
        assert(e.len() == w + er.len());
        assert(s[k] == e[0]);
        assert(s.subrange(k + w, k + w + er.len()) =~= er) by {
            assert forall|m: int| 0 <= m < er.len() implies s[k + w + m] == er[m] by {
                assert(s.subrange(k, k + e.len())[w + m] == e[w + m]);
            }
        }
        if w == 2 {
            assert(s[k + 1] == e[1]);
        }
        lemma_single_quoted_escaped(s, k + w, rest, acc.push(x));
        assert(acc.push(x) + rest =~= acc + c);
    }
}

/// Scanning a single-quoted literal whose body is the escaped form of `c`
/// gives a string token whose text is exactly `c`, ending after the closing
/// quote.
pub proof fn lemma_single_quoted_round_trip(s: Seq<char>, j: int, c: Seq<char>)
    requires
        0 <= j,
        j + escape_single(c).len() + 1 < s.len(),
        s[j] == '\'',
        s.subrange(j + 1, j + 1 + escape_single(c).len()) == escape_single(c),
        s[j + 1 + escape_single(c).len()] == '\'',
    ensures
        scan_at(s, j) == (Scan::Token {
            kind: TokenType::String,
            value: Some(c),
            end: j + escape_single(c).len() + 2,
        }),
{
    lemma_single_quoted_escaped(s, j + 1, c, seq![]);
    assert(seq![] + c =~= c);
}

/// Scanning the empty text gives exactly one token, the end-of-input marker.
pub proof fn lemma_lex_empty()
    ensures
        lex(Seq::<char>::empty()) == Ok::<Seq<TokM>, LexFault>(seq![eof_token(0)]),
{
    assert(seq![].push(eof_token(0)) =~= seq![eof_token(0)]);
}

proof fn lemma_lex_from_no_eof(s: Seq<char>, i: int)
    ensures
        lex_from(s, i) matches Ok(ts) ==> forall|k: int| 0 <= k < ts.len() ==> #[trigger] ts[k].kind
            != TokenType::EOF,
    decreases s.len() - i,
{
    let j = skip_spaces(s, i);
    if 0 <= j < s.len() {
        if let Scan::Token { kind, value, end } = scan_at(s, j) {
            if i <= j < end <= s.len() {
                lemma_lex_from_no_eof(s, end);
                assert(kind != TokenType::EOF);
                if let Ok(rest) = lex_from(s, end) {
                    let t = TokM { kind, value, start: offset(s, j), end: offset(s, end) };
                    assert forall|k: int| 0 <= k < 1 + rest.len() implies #[trigger] (seq![t]
                        + rest)[k].kind != TokenType::EOF by {
                        if k > 0 {
                            assert((seq![t] + rest)[k] == rest[k - 1]);
                        }
                    }
                }
            }
        }
    }
}

/// Whenever scanning succeeds, its last token is the end-of-input marker and
/// no token before it is one.
pub proof fn lemma_lex_ends_with_eof(s: Seq<char>)
    ensures
        lex(s) matches Ok(ts) ==> ts.len() >= 1 && ts.last().kind == TokenType::EOF && ts.last()
            == eof_token((ts.len() - 1) as nat) && forall|k: int|
            0 <= k < ts.len() - 1 ==> #[trigger] ts[k].kind != TokenType::EOF,
{
    lemma_lex_from_no_eof(s, 0);
    if let Ok(ts) = lex_from(s, 0) {
        assert forall|k: int| 0 <= k < ts.len() implies #[trigger] ts.push(eof_token(ts.len()))[k].kind
            != TokenType::EOF by {
            assert(ts.push(eof_token(ts.len()))[k] == ts[k]);
        }
    }
}

/// Scans the whole input: the tokens that [`lex`] gives, the last being the
/// end-of-input marker, or the first failure.
pub fn tokenize(input: &str) -> (r: Result<Vec<SpannedToken>, LexerError>)
    requires
        byte_len(input@) <= usize::MAX,
    ensures
        match lex(input@) {
            Ok(ms) => r is Ok && tokens_are(r->Ok_0@, ms),
            Err(f) => r is Err && error_is(r->Err_0, f, input@),
        },
{
    let ghost s = input@;
    let mut lexer = Lexer::new(input);
    let mut tokens: Vec<SpannedToken> = Vec::new();
    let ghost mut done: Seq<TokM> = seq![];
    loop
        invariant
            s == input@,
            lexer.wf(),
            lexer.source() == s,
            0 <= lexer.index() <= s.len(),
            tokens_are(tokens@, done),
            lex_from(s, 0) == match lex_from(s, lexer.index()) {
                Ok(rest) => Ok(done + rest),
                Err(f) => Err(f),
            },
        ensures
            tokens_are(tokens@, done),
            lex_from(s, 0) == Ok::<Seq<TokM>, LexFault>(done),
        decreases s.len() - lexer.index(),
    {
        let ghost i = lexer.index();
        proof {
            lemma_skip_ge(s, i);
        }
        match lexer.next() {
            Some(Ok(t)) => {
                proof {
                    let j = skip_spaces(s, i);
                    if let Scan::Token { kind, value, end } = scan_at(s, j) {
                        let tm = TokM { kind, value, start: offset(s, j), end: offset(s, end) };
                        assert(token_is(t, tm));
                        match lex_from(s, end) {
                            Ok(rest) => {
                                assert(done + (seq![tm] + rest) =~= done.push(tm) + rest);
                            },
                            Err(f) => {},
                        }
                        done = done.push(tm);
                    }
                }
                tokens.push(t);
            },
            Some(Err(e)) => {
                proof {
                    let j = skip_spaces(s, i);
                    let fault = match scan_at(s, j) {
                        Scan::Unterminated => LexFault::UnterminatedString {
                            start: offset(s, j),
                            end: byte_len(s),
                        },
                        _ => LexFault::UnexpectedChar {
                            found: s[j],
                            start: offset(s, j),
                            end: offset(s, j + 1),
                        },
                    };
                    assert(error_is(e, fault, s));
                    assert(lex_from(s, i) == Err::<Seq<TokM>, LexFault>(fault));
                    assert(lex(s) == Err::<Seq<TokM>, LexFault>(fault));
                }
                return Err(e);
            },
            None => {
                assert(done + seq![] =~= done);
                break;
            },
        }
    }
    let n = tokens.len();
    proof {
        assert(lex(s) == Ok::<Seq<TokM>, LexFault>(done.push(eof_token(n as nat))));
    }
    tokens.push((n, Token::new(TokenType::EOF, n, n, None), n));
    Ok(tokens)
}

} // verus!
