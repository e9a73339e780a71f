//! A compiler from a small shell-orchestration language to POSIX shell text:
//! a scanner, a recursive-descent parser and a code generator, each stated
//! over a mathematical model and proved against it.
pub mod ast;
pub mod codegen;
pub mod error;
pub mod laws;
pub mod lexer;
pub mod parser;
pub mod text;

pub use crate::ast::{Expression, Literal, Program, Statement};
pub use crate::codegen::generate;
pub use crate::error::{Result, ShardError};
pub use crate::lexer::tokenize;
pub use crate::parser::parse;
