//! Parse and evaluate bash conditional expressions — the grammar accepted
//! by `[[ ... ]]`.
//!
//! The outer `[[ ... ]]` are optional and may also wrap any subexpression;
//! `!` binds tightest, then `&&`, then `||`, and both `&&` and `||`
//! short-circuit. There is no `( ... )` grouping and no `-a` / `-o` legacy
//! combinators.
//!
//! The library is verified: the lexer and parser are proved to follow a
//! grammar stated as spec functions ([`lex::lex_spec`], [`parse::parse_spec`]),
//! and the evaluator to compute [`semantics::expr_outcome`] for hosts whose
//! [`Env`] and [`FileSystem`] answer according to their models.
//!
//! Modules:
//! - [`ast`]: the syntax tree of an expression;
//! - [`lex`], [`parse`]: text to tokens to expressions;
//! - [`syntax`]: words, tokens, expressions and errors as mathematical values;
//! - [`semantics`]: what an expression means, as spec functions;
//! - [`eval`]: the evaluator; [`arith`]: shell arithmetic;
//! - [`pattern`]: globs, extended globs and regular expressions;
//! - [`env`], [`fs_abs`]: the host environment and file system;
//! - [`error`], [`text`]: errors and string helpers.

pub mod arith;
pub mod ast;
pub mod env;
pub mod error;
pub mod eval;
pub mod fs_abs;
pub mod lex;
pub mod parse;
pub mod pattern;
pub mod semantics;
pub mod syntax;
pub mod text;

pub use ast::{
    BinaryOp, CaseModifyKind, Expr, ParameterExpansion, ParameterOp, Primary, RemoveKind,
    ReplaceKind, UnaryOp, Word, WordPart,
};
pub use env::{Env, MapEnv, StdEnv};
pub use error::{EvalError, ParseError};
pub use eval::Evaluator;
pub use fs_abs::{AccessMode, FileKind, FileStat, FileSystem};
pub use parse::{parse, parse_with_options, ParseOptions};
pub use pattern::{CompiledGlob, GlobOptions, PatternError};
