//! Secret Santa assignment solver.
//!
//! A roster of participants and a set of rules (forced pairs, forbidden pairs,
//! groups that may not exchange gifts, and past years' assignments) are turned
//! into a boolean formula over "giver gives to receiver" literals. A SAT solver
//! then yields several edge-disjoint assignments, one of which is drawn at
//! random.
use vstd::prelude::*;

pub mod pair;
pub mod oracle;
pub mod encode;
pub mod solver;
pub mod roster;
pub mod message;

verus! {

} // verus!
