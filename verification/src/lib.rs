//! Scorch: the lexer, parser and runtime support of a small scripting language.
pub mod ast;
pub mod cli;
pub mod context;
pub mod interpreter;
pub mod literals;
pub mod standard_functions;
pub mod timewindow;
pub mod tokens;
pub mod typechecker;
pub mod types;
