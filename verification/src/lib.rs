//! hm is a library for dotfile (and more) management: it takes a set of
//! declared objects — files to place and named shell tasks with dependency
//! lists — and schedules the tasks in an order that respects their declared
//! dependencies, reporting per-task status back to a central collector.

use vstd::prelude::*;

pub mod app;
pub mod config;
pub mod hmerror;
pub mod task;

verus! {

} // verus!
