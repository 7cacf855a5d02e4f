//! Expert-parallel execution of one layer program across device ranks.
//!
//! - [`error`]: the refusals, and what each says.
//! - [`layout`]: the steps of every plan, place by place.
//! - [`laws`]: what holds of every plan and every run.
//! - [`plan`]: how one op is run.
//! - [`reduce`]: which transport sums the ranks' partials.
//! - [`route`]: whether the ranks agree on a root-routed combine.
//! - [`rules`]: what a run does with each thing that it is told.
//! - [`run`]: the run of a layer program, step by step.
//! - [`script`]: the steps of the mesh.
//! - [`trace`]: runs as traces, and programs run in sequence.

pub mod error;
pub mod layout;
pub mod laws;
pub mod plan;
pub mod reduce;
pub mod route;
pub mod rules;
pub mod run;
pub mod script;
pub mod trace;
