//! A staged compiler for a language with algebraic effects.
pub mod common;
pub mod frontend;
pub mod ir;
pub mod meaning;
pub mod passes;
pub mod pipeline;
pub mod sema;
