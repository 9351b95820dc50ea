//! The passes of the compiler.
pub mod arc_emit;
pub mod arc_insert;
pub mod arc_opt;
pub mod arc_verify;
pub mod bta;
pub mod c_emit;
pub mod cfg_lower;
pub mod cfg_verify;
pub mod comptime;
pub mod comptime_check;
pub mod ct_common;
pub mod ct_eval;
pub mod ct_files;
pub mod ct_propagate;
pub mod function_graph;
pub mod handler_specialize;
pub mod linearize;
pub mod lowering;
pub mod monomorphize;
pub mod residualize;
