pub mod effect;
pub mod ownership;
pub mod ty;
pub mod typecheck;
