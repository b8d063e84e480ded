//! MiniFun: a simply typed functional language with recursive functions.
pub mod ast;
pub mod types;
pub mod runtime;
pub mod eval;
pub mod typecheck;
pub mod soundness;
pub mod lexer;
pub mod parser;
