//! The error of the whole pipeline: one variant per stage, each holding the
//! stage error's message.
use vstd::prelude::*;
use crate::codegen::CodegenError;
use crate::lexer::LexerError;
use crate::parser::ParserError;
use crate::text::{push_char, push_str};

verus! {

#[derive(Debug)]
pub enum ShardError {
    Lexer(String),
    Parser(String),
    Codegen(String),
}

pub type Result<T> = core::result::Result<T, ShardError>;

impl LexerError {
    /// The one-line description of the failure.
    pub fn message(&self) -> (r: String)
        ensures
            r@ == self.message_spec(),
    {
        let mut m = String::new();
        match self {
            LexerError::UnexpectedChar { found, .. } => {
                push_str(&mut m, "Unexpected character: '");
                push_char(&mut m, *found);
                push_str(&mut m, "'");
                assert(m@ =~= "Unexpected character: '"@ + seq![*found] + "'"@);
            },
            LexerError::UnterminatedString { .. } => {
                push_str(&mut m, "Unterminated string literal");
                assert(m@ =~= "Unterminated string literal"@);
            },
        }
        m
    }
}

impl ParserError {
    /// The one-line description of the failure.
    pub fn message(&self) -> (r: String)
        ensures
            r@ == self.message_spec(),
    {
        let mut m = String::new();
        match self {
            ParserError::ParseError(s) => {
                push_str(&mut m, "Parse error: ");
                push_str(&mut m, s.as_str());
                assert(m@ =~= "Parse error: "@ + s@);
            },
            ParserError::Other(s) => {
                push_str(&mut m, "Parser error: ");
                push_str(&mut m, s.as_str());
                assert(m@ =~= "Parser error: "@ + s@);
            },
        }
        m
    }
}

impl CodegenError {
    /// The one-line description of the failure.
    pub fn message(&self) -> (r: String)
        ensures
            r@ == self.message_spec(),
    {
        let mut m = String::new();
        match self {
            CodegenError::UnsupportedNode { node_type } => {
                push_str(&mut m, "Unsupported AST node: ");
                push_str(&mut m, node_type.as_str());
                assert(m@ =~= "Unsupported AST node: "@ + node_type@);
            },
            CodegenError::ParseError(s) => {
                push_str(&mut m, "Codegen error: ");
                push_str(&mut m, s.as_str());
                assert(m@ =~= "Codegen error: "@ + s@);
            },
        }
        m
    }
}

impl ShardError {
    /// A scanning failure, by its message.
    pub fn from_lexer(e: LexerError) -> (r: ShardError)
        ensures
            r matches ShardError::Lexer(m) && m@ == e.message_spec(),
    {
        ShardError::Lexer(e.message())
    }

    /// A parse failure, by its message.
    pub fn from_parser(e: ParserError) -> (r: ShardError)
        ensures
            r matches ShardError::Parser(m) && m@ == e.message_spec(),
    {
        ShardError::Parser(e.message())
    }

    /// A generation failure, by its message.
    pub fn from_codegen(e: CodegenError) -> (r: ShardError)
        ensures
            r matches ShardError::Codegen(m) && m@ == e.message_spec(),
    {
        ShardError::Codegen(e.message())
    }

    /// The description of the failure, with the stage it comes from.
    pub fn message(&self) -> (r: String)
        ensures
            r@ == match self {
                ShardError::Lexer(s) => "Lexer error: "@ + s@,
                ShardError::Parser(s) => "Parser error: "@ + s@,
                ShardError::Codegen(s) => "Codegen error: "@ + s@,
            },
    {
        let mut m = String::new();
        match self {
            ShardError::Lexer(s) => {
                push_str(&mut m, "Lexer error: ");
                push_str(&mut m, s.as_str());
                assert(m@ =~= "Lexer error: "@ + s@);
            },
            ShardError::Parser(s) => {
                push_str(&mut m, "Parser error: ");
                push_str(&mut m, s.as_str());
                assert(m@ =~= "Parser error: "@ + s@);
            },
            ShardError::Codegen(s) => {
                push_str(&mut m, "Codegen error: ");
                push_str(&mut m, s.as_str());
                assert(m@ =~= "Codegen error: "@ + s@);
            },
        }
        m
    }
}

impl LexerError {
    pub open spec fn message_spec(&self) -> Seq<char> {
        match self {
            LexerError::UnexpectedChar { found, .. } => "Unexpected character: '"@ + seq![*found] + "'"@,
            LexerError::UnterminatedString { .. } => "Unterminated string literal"@,
        }
    }
}

impl ParserError {
    pub open spec fn message_spec(&self) -> Seq<char> {
        match self {
            ParserError::ParseError(s) => "Parse error: "@ + s@,
            ParserError::Other(s) => "Parser error: "@ + s@,
        }
    }
}

impl CodegenError {
    pub open spec fn message_spec(&self) -> Seq<char> {
        match self {
            CodegenError::UnsupportedNode { node_type } => "Unsupported AST node: "@ + node_type@,
            CodegenError::ParseError(s) => "Codegen error: "@ + s@,
        }
    }
}

} // verus!
