//! Arithmetic expressions over decimal literals: a grammar engine that turns
//! text into a tree of parse nodes, a builder that resolves operator
//! precedence into an expression tree, and an evaluator that lays the tree
//! out as a program for a stack machine.
//!
//! - `text`, `grammar`, `rule`: the bytes and the rules of the grammar, as
//!   functions of mathematics.
//! - `parser`, `pairs`, `error`: the grammar engine, the parse nodes it
//!   hands out and the errors it gives.
//! - `pratt`, `ast`: the builder. Operator precedence is resolved by pest's
//!   Pratt parser; `pratt` states what is taken on trust of it.
//! - `eval`: the evaluator, and the entry point for a line of text.
//! - `render`: the canonical text of an expression.
//! - `accepts`, `shape`, `stable`: what is proved of the grammar and the
//!   builder together.
//! - `cli`: the decisions of the command line.
//!
//! Numbers of double precision stay outside: the library hands out the
//! literals and the order of the operations, and its caller does the
//! arithmetic.

pub mod accepts;
pub mod ast;
pub mod cli;
pub mod error;
pub mod eval;
pub mod grammar;
pub mod pairs;
pub mod parser;
pub mod pratt;
pub mod render;
pub mod rule;
pub mod shape;
pub mod stable;
pub mod text;

pub use crate::ast::{parse_expr, Expr, Op};
pub use crate::error::{MyError, SyntaxError};
pub use crate::eval::{eval_expr, eval_expr_from_string, Step};
pub use crate::pairs::{Pair, Pairs, Span};
pub use crate::parser::MyParser;
pub use crate::rule::{Expected, Rule};
