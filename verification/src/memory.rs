use vstd::prelude::*;

verus! {

/// One step of experience: constructed per transition and consumed
/// immediately by the learning update.
#[derive(Clone, Copy, Debug)]
pub struct Exp {
    pub state: u64,
    pub action: u64,
    /// `None` signals that the transition ended the episode.
    pub next_state: Option<u64>,
    /// The reward, as a fixed-point value.
    pub reward: i64,
}

} // verus!
