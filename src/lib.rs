//! Deterministic, rollback-capable simulation core for a cooperative
//! arena shooter: seeded randomness, snapshots, event deduplication and the
//! fixed-tick step pipeline.
use vstd::prelude::*;

pub mod events;
pub mod input;
pub mod seeding;
pub mod session;
pub mod sim;
pub mod snapshot;
pub mod world;

verus! {

} // verus!
