//! A framework for building shell environments: a bash-like lexer and
//! recursive-descent parser, and an evaluator for the resulting syntax tree.

pub mod context;
pub mod eval;
pub mod output;
pub mod parser;
pub mod semantics;
pub mod text;

pub use context::Context;
pub use output::Output;
pub use parser::ast::{Expr, RedirectMode, Word, WordPart};
