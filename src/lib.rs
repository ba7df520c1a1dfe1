//! Task control blocks, the task pool and a multilevel-feedback scheduler
//! for a single-CPU kernel, with their invariants proved by Verus.

pub mod task;
pub mod manager;
pub mod scheduler;
pub mod lemmas;
