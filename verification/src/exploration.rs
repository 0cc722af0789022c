use vstd::prelude::*;

verus! {

use crate::decay::Decay;
use crate::num::SCALE;

/// The largest multiple of `SCALE` that fits in a `u32`: draws at or above
/// it are redrawn, so that the reduction modulo `SCALE` stays uniform.
pub const DRAW_BOUND: u32 = 4_294_000_000;

/// The binary outcome of the exploration policy.
#[derive(Clone, Copy, Debug, PartialEq, Eq, Structural)]
pub enum Choice {
    Explore,
    Exploit,
}

/// Relies on rand::random: a uniformly distributed `u32`. Nothing is assumed
/// of the value drawn.
#[verifier::external_body]
fn random_u32() -> u32 {
    rand::random::<u32>()
}

/// The epsilon-greedy exploration policy: explore with probability
/// `epsilon = decay.evaluate(episode)`, exploit otherwise, so that an
/// annealed schedule trades early random exploration for later exploitation.
pub struct EpsilonGreedy<D: Decay> {
    pub decay: D,
}

impl<D: Decay> EpsilonGreedy<D> {
    pub fn new(decay: D) -> (r: Self)
        ensures
            r.decay == decay,
    {
        Self { decay }
    }

    /// Draw a uniform sample in `[0, 1)` and explore exactly when it falls
    /// below the annealed threshold `decay.evaluate(episode)`.
    ///
    /// A threshold at or below zero therefore always exploits, and one at or
    /// above one always explores; in between the draw decides. Draws at or
    /// above `DRAW_BOUND` are rejected and retaken — a bounded number of
    /// times, so the redraw loop terminates — which removes the modulo bias
    /// of reducing a 32-bit draw to `[0, SCALE)`.
    pub fn decide(&self, episode: u64) -> (r: Choice)
        requires
            self.decay.wf(),
        ensures
            self.decay.spec_eval(episode) <= 0 ==> r == Choice::Exploit,
            self.decay.spec_eval(episode) >= SCALE ==> r == Choice::Explore,
    {
        let epsilon = self.decay.evaluate(episode);
        let mut raw: u32 = random_u32();
        let mut tries: u32 = 0;
        while raw >= DRAW_BOUND && tries < 64
            invariant
                tries <= 64,
            decreases 64 - tries,
        {
            raw = random_u32();
            tries = tries + 1;
        }
        let sample: i64 = (raw % (SCALE as u32)) as i64;
        if sample < epsilon {
            Choice::Explore
        } else {
            Choice::Exploit
        }
    }
}

} // verus!
