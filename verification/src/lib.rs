//! Core of a Carnot-style BFT consensus engine: a deterministic tree overlay
//! over the validator set, a per-node consensus state machine, and the vote /
//! timeout tally machinery that turns network messages into protocol events.

pub mod codec;
pub mod committee;
pub mod dispatch;
pub mod engine;
pub mod messages;
pub mod overlay;
pub mod partition;
pub mod tally;
pub mod qc;
pub mod sim;
pub mod timeout;
pub mod tree;
pub mod types;

use vstd::prelude::*;

verus! {

} // verus!
