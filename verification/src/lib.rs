//! A static-priority preemptive task scheduler with an immediate
//! priority-ceiling resource lock, and a harness that explores the paths of
//! task bodies.
//!
//! - [`value`]: resource values of a fixed bit width and their arithmetic.
//! - [`config`]: task and resource declarations, and the priority ceilings
//!   that they give.
//! - [`model`]: the system as a mathematical state, its transitions and its
//!   invariant.
//! - [`preservation`]: every transition keeps the invariant.
//! - [`laws`]: what the invariant gives: ceiling soundness, the stack
//!   discipline of the threshold, no preemption at equal priority.
//! - [`system`]: the executable system, whose view is the model's state.
//! - [`body`]: task bodies as data, and what a run of one does.
//! - [`exploration`]: what an exploration yields, and what holds of it.
//! - [`harness`]: replay and exploration of one task.
//! - [`program`]: a system with the bodies of all its tasks.
//! - [`audit`]: warnings on accepted configurations.
//! - [`termination`]: the status with which a run ends.

pub mod audit;
pub mod body;
pub mod config;
pub mod exploration;
pub mod harness;
pub mod laws;
pub mod model;
pub mod preservation;
pub mod program;
pub mod system;
pub mod termination;
pub mod value;
