//! Lexora: the front end and code generator of a small statically typed
//! language, with their contracts: source map, lexer, parser, type checker,
//! ownership (move) checker, diagnostics rendering and a textual LLVM IR
//! builder.

pub mod text;
pub mod strslice;
pub mod span;
pub mod symbol;
pub mod suggest;
pub mod error;
pub mod lexer;
pub mod ast;
pub mod tables;
pub mod typing;
pub mod typechecker;
pub mod move_check;
pub mod backend;
pub mod source_map;
pub mod diagnostic;
pub mod parser;
