//! Roster balancing and station assignment for timed exam rotations.
//!
//! The balancer reconciles head counts against pairing and capacity
//! constraints: `balance` splits a population into even morning, afternoon
//! and any buckets, `fill` and `plan` decide which filler people to request
//! and when a count is over capacity. The solver (`solver`) then assigns two
//! candidates and one examiner to every station of every circuit of a slot,
//! maximising satisfied partner preferences: it states the slot's 0/1
//! integer program (`program`), hands it to an outside solver and checks
//! what comes back.

pub mod auth;
pub mod balance;
pub mod error;
pub mod fill;
mod lp;
pub mod model;
pub mod plan;
pub mod program;
pub mod solver;
