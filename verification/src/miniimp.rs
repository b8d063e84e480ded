//! MiniImp: a small imperative language with one input and one output variable.
pub mod ast;
pub mod runtime;
pub mod eval;
pub mod cfg;
pub mod fixpoint;
pub mod sets;
pub mod dataflow;
pub mod optimizations;
pub mod lexer;
pub mod parser;
pub mod llvm;
pub mod cfg_semantics;
pub mod dataflow_paths;
