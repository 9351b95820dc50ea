//! The intermediate representations.
pub mod cfg;
pub mod core_ir;
pub mod linear;
