//! What programs mean, and what the passes keep of it.
pub mod cfg_run;
pub mod core_run;
pub mod core_values;
pub mod counting;
pub mod declaring;
pub mod evaluation;
pub mod jumping;
pub mod linear_run;
pub mod lowered_run;
pub mod lowering;
pub mod machine;
pub mod mirror;
pub mod noticing;
pub mod open_run;
pub mod owning;
pub mod performing;
pub mod register_run;
pub mod releasing;
pub mod remaining;
pub mod resuming;
pub mod running;
pub mod searching;
pub mod shapes;
pub mod source_run;
pub mod source_values;
pub mod specializing;
pub mod staging;
pub mod typing;
pub mod values;
pub mod weaving;
pub mod worlds;
