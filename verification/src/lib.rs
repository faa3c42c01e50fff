//! Core coordination engine for a fleet of harvesting agents on a toroidal
//! grid: wrap-around coordinate arithmetic, the typed field maps with their
//! reverse indices, the resource-richness location selector, the budgeted
//! best-first path search, the per-agent decision state machine, and the
//! turn-level conflict-resolving scheduler.

pub mod agent;
pub mod coord;
pub mod grid;
pub mod mapraw;
pub mod rng;
pub mod plan;
pub mod search;
pub mod select;
pub mod sync;

use vstd::prelude::*;

verus! {

} // verus!
