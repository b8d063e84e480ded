//! Pieces shared by both languages: the error type and text helpers.
pub mod error;
pub mod text;
pub mod scan;
pub mod order;
pub mod bindings;
