//! Interpreters, a type checker, a control-flow-graph builder, dataflow
//! analyses, optimisations and an LLVM IR emitter for two small teaching
//! languages: the imperative MiniImp and the functional MiniFun.
pub mod common;
pub mod minifun;
pub mod miniimp;
