//! What the parser hands over.
pub mod ast;
