use vstd::prelude::*;

verus! {

/// The capability an agent requires of an environment. States and actions
/// are small copyable identifiers, fit to key a Q-table.
///
/// The contract an implementation owes its agent: episodes are finite
/// (`horizon` bounds the steps left and every non-terminal transition brings
/// it down), and at least one action is always on offer — an environment
/// reporting zero legal actions is malformed, not a runtime condition the
/// training loop recovers from.
pub trait Environment {
    /// An upper bound on the number of steps left in the current episode.
    ///
    /// An implementation whose `step` can return `Some` must supply its own
    /// decreasing `horizon` (a step counter meets the contract): under the
    /// default of zero, `step`'s contract leaves no lawful non-terminal
    /// transition.
    open spec fn horizon(&self) -> nat {
        0
    }

    /// Start a new episode; returns the initial state.
    fn reset(&mut self) -> (s: u64);

    /// The actions legal in the current state, in selection order.
    fn actions(&self) -> (r: Vec<u64>)
        ensures
            r@.len() >= 1,
    ;

    /// Take `action`; returns the next state — `None` signals a terminal
    /// transition — and the reward, as a fixed-point value.
    fn step(&mut self, action: u64) -> (r: (Option<u64>, i64))
        ensures
            r.0 is Some ==> final(self).horizon() < old(self).horizon(),
    ;

    /// An environment-chosen action, for the explore branch.
    fn random_action(&self) -> (a: u64);
}

} // verus!
