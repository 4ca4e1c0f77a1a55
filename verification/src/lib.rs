//! Which procs of a DreamMaker object tree can park the proc that called them.
//!
//! When a proc sleeps, BYOND suspends it and every caller above it that still
//! waits for it. A JIT that compiles a caller has no interpreter frame for BYOND
//! to suspend, so it needs this answer for every proc before compiling it.
//!
//! The library works on a plain model of what the analysis of an object tree
//! found (`model`): the types with their parents, the procs with their call
//! edges, and which procs sleep, set `waitfor = 0` or make calls that could not
//! be tied to a proc. `verdicts` walks the call graph that the model spans and
//! gives each proc its verdict; `allowlist` spells the safe procs the way the
//! `.dmb` spells them.

#![allow(unused_imports)]

pub mod model;
pub mod visits;
mod intern;
pub mod verdicts;
pub mod paths;
pub mod allowlist;
pub mod laws;
pub mod overrides;
