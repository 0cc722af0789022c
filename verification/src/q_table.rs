use vstd::prelude::*;

verus! {

use crate::decay::Decay;
use crate::env::Environment;
use crate::exploration::{Choice, EpsilonGreedy};
use crate::memory::Exp;
use crate::num::{
    SCALE, clamp64_spec, convex_spec, frac_mul_spec, add_sat, convex, frac_mul,
    lemma_convex_between,
};

/// One row of a Q-table: the value estimate of one (state, action) pair.
#[derive(Clone, Copy, Debug)]
pub struct QEntry {
    pub state: u64,
    pub action: u64,
    pub value: i64,
}

/// The estimated value of `(state, action)` in a sequence of rows: the first
/// matching row's value, or the neutral default `0` when no row matches.
pub open spec fn q_of(s: Seq<QEntry>, state: u64, action: u64) -> int
    decreases s.len(),
{
    if s.len() == 0 {
        0
    } else if s[0].state == state && s[0].action == action {
        s[0].value as int
    } else {
        q_of(s.drop_first(), state, action)
    }
}

/// Whether `(state, action)` has a row.
pub open spec fn q_has(s: Seq<QEntry>, state: u64, action: u64) -> bool
    decreases s.len(),
{
    if s.len() == 0 {
        false
    } else if s[0].state == state && s[0].action == action {
        true
    } else {
        q_has(s.drop_first(), state, action)
    }
}

/// A mapping from (state, action) pairs to fixed-point value estimates;
/// pairs never updated read as `0` and are never materialized.
pub struct QTable {
    pub entries: Vec<QEntry>,
}

/// If the first `j` rows do not match, the lookup sees the tail from `j` on.
proof fn lemma_q_of_skip(s: Seq<QEntry>, j: nat, state: u64, action: u64)
    requires
        j <= s.len(),
        forall|m: int|
            0 <= m < j ==> !((#[trigger] s[m]).state == state && s[m].action == action),
    ensures
        q_of(s, state, action) == q_of(s.skip(j as int), state, action),
        q_has(s, state, action) == q_has(s.skip(j as int), state, action),
    decreases j,
{
    if j == 0 {
        assert(s.skip(0) =~= s);
    } else {
        lemma_q_of_skip(s, (j - 1) as nat, state, action);
        let t = s.skip(j as int - 1);
        assert(t[0] == s[j - 1]);
        assert(t.drop_first() =~= s.skip(j as int));
    }
}

/// A row that matches its own key, placed over a row with the same key,
/// leaves every other key's lookup unchanged.
proof fn lemma_q_of_update(s: Seq<QEntry>, j: nat, e: QEntry, s2: u64, a2: u64)
    requires
        j < s.len(),
        s[j as int].state == e.state,
        s[j as int].action == e.action,
        !(s2 == e.state && a2 == e.action),
    ensures
        q_of(s.update(j as int, e), s2, a2) == q_of(s, s2, a2),
        q_has(s.update(j as int, e), s2, a2) == q_has(s, s2, a2),
    decreases j,
{
    let u = s.update(j as int, e);
    if j == 0 {
        assert(u[0] == e);
        assert(u.drop_first() =~= s.drop_first());
    } else {
        assert(u[0] == s[0]);
        if s[0].state == s2 && s[0].action == a2 {
        } else {
            assert(u.drop_first() =~= s.drop_first().update(j as int - 1, e));
            lemma_q_of_update(s.drop_first(), (j - 1) as nat, e, s2, a2);
        }
    }
}

/// Appending a row changes only the lookups of keys that had no row, and of
/// those only the appended row's own key.
proof fn lemma_q_of_push(s: Seq<QEntry>, e: QEntry, s2: u64, a2: u64)
    ensures
        q_of(s.push(e), s2, a2) == if q_has(s, s2, a2) {
            q_of(s, s2, a2)
        } else if s2 == e.state && a2 == e.action {
            e.value as int
        } else {
            0
        },
        q_has(s.push(e), s2, a2) == (q_has(s, s2, a2) || (s2 == e.state && a2 == e.action)),
    decreases s.len(),
{
    let u = s.push(e);
    if s.len() == 0 {
        assert(u[0] == e);
        assert(u.drop_first() =~= Seq::<QEntry>::empty());
        assert(q_of(u.drop_first(), s2, a2) == 0);
        assert(q_has(u.drop_first(), s2, a2) == false);
        assert(!q_has(s, s2, a2));
        if s2 == e.state && a2 == e.action {
            assert(q_of(u, s2, a2) == e.value as int);
            assert(q_has(u, s2, a2));
        } else {
            assert(q_of(u, s2, a2) == 0);
            assert(!q_has(u, s2, a2));
        }
    } else {
        assert(u[0] == s[0]);
        if s[0].state == s2 && s[0].action == a2 {
            assert(q_of(u, s2, a2) == s[0].value as int);
            assert(q_of(s, s2, a2) == s[0].value as int);
            assert(q_has(u, s2, a2));
            assert(q_has(s, s2, a2));
        } else {
            assert(u.drop_first() =~= s.drop_first().push(e));
            lemma_q_of_push(s.drop_first(), e, s2, a2);
            assert(q_of(u, s2, a2) == q_of(u.drop_first(), s2, a2));
            assert(q_of(s, s2, a2) == q_of(s.drop_first(), s2, a2));
            assert(q_has(u, s2, a2) == q_has(u.drop_first(), s2, a2));
            assert(q_has(s, s2, a2) == q_has(s.drop_first(), s2, a2));
        }
    }
}


/// A key with no row reads as the neutral default.
proof fn lemma_q_of_absent(s: Seq<QEntry>, s2: u64, a2: u64)
    requires
        !q_has(s, s2, a2),
    ensures
        q_of(s, s2, a2) == 0,
    decreases s.len(),
{
    if s.len() > 0 {
        lemma_q_of_absent(s.drop_first(), s2, a2);
    }
}

impl QTable {
    /// An empty table.
    pub fn new() -> (r: Self)
        ensures
            r.entries@.len() == 0,
    {
        QTable { entries: Vec::new() }
    }

    /// Look up the estimated value of `(state, action)`, `0` when unseen.
    pub fn get(&self, state: u64, action: u64) -> (r: i64)
        ensures
            r as int == q_of(self.entries@, state, action),
    {
        let n = self.entries.len();
        let mut i: usize = 0;
        while i < n
            invariant
                i <= n,
                n == self.entries@.len(),
                forall|m: int|
                    0 <= m < i ==> !((#[trigger] self.entries@[m]).state == state
                        && self.entries@[m].action == action),
            decreases n - i,
        {
            let e = self.entries[i];
            if e.state == state && e.action == action {
                proof {
                    lemma_q_of_skip(self.entries@, i as nat, state, action);
                    assert(self.entries@.skip(i as int)[0] == e);
                }
                return e.value;
            }
            i = i + 1;
        }
        proof {
            lemma_q_of_skip(self.entries@, i as nat, state, action);
            assert(self.entries@.skip(i as int) =~= Seq::<QEntry>::empty());
        }
        0
    }

    /// Whether `(state, action)` has ever been updated.
    pub fn contains(&self, state: u64, action: u64) -> (r: bool)
        ensures
            r == q_has(self.entries@, state, action),
    {
        let n = self.entries.len();
        let mut i: usize = 0;
        while i < n
            invariant
                i <= n,
                n == self.entries@.len(),
                forall|m: int|
                    0 <= m < i ==> !((#[trigger] self.entries@[m]).state == state
                        && self.entries@[m].action == action),
            decreases n - i,
        {
            let e = self.entries[i];
            if e.state == state && e.action == action {
                proof {
                    lemma_q_of_skip(self.entries@, i as nat, state, action);
                    assert(self.entries@.skip(i as int)[0] == e);
                }
                return true;
            }
            i = i + 1;
        }
        proof {
            lemma_q_of_skip(self.entries@, i as nat, state, action);
            assert(self.entries@.skip(i as int) =~= Seq::<QEntry>::empty());
        }
        false
    }

    /// Insert or overwrite the row for `(state, action)`: afterwards that
    /// pair reads as `value` and every other pair reads as before; rows are
    /// never deleted.
    #[verifier::loop_isolation(false)]
    pub fn set(&mut self, state: u64, action: u64, value: i64)
        ensures
            q_has(old(self).entries@, state, action) ==> final(self).entries@.len() == old(self).entries@.len(),
            !q_has(old(self).entries@, state, action) ==> final(self).entries@.len() == old(self).entries@.len() + 1,
            q_of(final(self).entries@, state, action) == value as int,
            q_has(final(self).entries@, state, action),
            forall|s2: u64, a2: u64|
                !(s2 == state && a2 == action) ==> #[trigger] q_of(final(self).entries@, s2, a2)
                    == q_of(old(self).entries@, s2, a2),
            forall|s2: u64, a2: u64| #[trigger]
                q_has(final(self).entries@, s2, a2) == (q_has(old(self).entries@, s2, a2) || (s2
                    == state && a2 == action)),
    {
        let e = QEntry { state, action, value };
        let ghost s0 = self.entries@;
        let n = self.entries.len();
        let mut i: usize = 0;
        while i < n
            invariant
                i <= n,
                n == self.entries@.len(),
                self.entries@ == s0,
                forall|m: int|
                    0 <= m < i ==> !((#[trigger] self.entries@[m]).state == state
                        && self.entries@[m].action == action),
            decreases n - i,
        {
            let row = self.entries[i];
            if row.state == state && row.action == action {
                self.entries.set(i, e);
                proof {
                    let s1 = self.entries@;
                    assert(s1 == s0.update(i as int, e));
                    assert(s0[i as int] == row);
                    lemma_q_of_skip(s0, i as nat, state, action);
                    assert(s0.skip(i as int)[0] == row);
                    assert(q_has(s0, state, action));
                    lemma_q_of_skip(s1, i as nat, state, action);
                    assert(s1.skip(i as int)[0] == e);
                    assert forall|s2: u64, a2: u64| !(s2 == state && a2 == action) implies #[trigger]
                        q_of(s1, s2, a2) == q_of(s0, s2, a2) && q_has(s1, s2, a2) == q_has(
                        s0,
                        s2,
                        a2,
                    ) by {
                        lemma_q_of_update(s0, i as nat, e, s2, a2);
                    }
                    assert forall|s2: u64, a2: u64| true implies #[trigger] q_has(s1, s2, a2) == (
                    q_has(s0, s2, a2) || (s2 == state && a2 == action)) by {
                        if s2 == state && a2 == action {
                            lemma_q_of_skip(s1, i as nat, s2, a2);
                        } else {
                            lemma_q_of_update(s0, i as nat, e, s2, a2);
                        }
                    }
                }
                return ;
            }
            i = i + 1;
        }
        self.entries.push(e);
        proof {
            let s1 = self.entries@;
            assert(s1 == s0.push(e));
            lemma_q_of_skip(s0, s0.len(), state, action);
            assert(s0.skip(s0.len() as int) =~= Seq::<QEntry>::empty());
            assert(!q_has(s0, state, action));
            lemma_q_of_push(s0, e, state, action);
            assert forall|s2: u64, a2: u64| !(s2 == state && a2 == action) implies #[trigger] q_of(
                s1,
                s2,
                a2,
            ) == q_of(s0, s2, a2) by {
                lemma_q_of_push(s0, e, s2, a2);
                if !q_has(s0, s2, a2) {
                    lemma_q_of_absent(s0, s2, a2);
                }
            }
            assert forall|s2: u64, a2: u64| true implies #[trigger] q_has(s1, s2, a2) == (q_has(
                s0,
                s2,
                a2,
            ) || (s2 == state && a2 == action)) by {
                lemma_q_of_push(s0, e, s2, a2);
            }
        }
    }
}


/// The greatest estimated value among the first `n` of `acts` in `state`,
/// `0` when there are none: the bootstrap term of the update rule.
pub open spec fn max_q(s: Seq<QEntry>, state: u64, acts: Seq<u64>, n: nat) -> int
    decreases n,
{
    if n == 0 {
        0
    } else if n == 1 {
        q_of(s, state, acts[0])
    } else {
        let m = max_q(s, state, acts, (n - 1) as nat);
        let v = q_of(s, state, acts[n - 1]);
        if v > m {
            v
        } else {
            m
        }
    }
}

/// The index of the first action among the first `n` of `acts` attaining the
/// greatest estimated value in `state`: ties break toward selection order.
pub open spec fn best_idx(s: Seq<QEntry>, state: u64, acts: Seq<u64>, n: nat) -> nat
    decreases n,
{
    if n <= 1 {
        0
    } else {
        let b = best_idx(s, state, acts, (n - 1) as nat);
        if q_of(s, state, acts[n - 1]) > q_of(s, state, acts[b as int]) {
            (n - 1) as nat
        } else {
            b
        }
    }
}

/// Law: greedy selection is maximal and breaks ties by selection order — the
/// chosen index attains the maximum and every earlier action is strictly
/// smaller.
pub proof fn lemma_best_idx_first_max(s: Seq<QEntry>, state: u64, acts: Seq<u64>, n: nat)
    requires
        1 <= n <= acts.len(),
    ensures
        ({
            let b = best_idx(s, state, acts, n);
            &&& b < n
            &&& forall|j: int|
                0 <= j < n ==> #[trigger] q_of(s, state, acts[j]) <= q_of(s, state, acts[b as int])
            &&& forall|j: int|
                0 <= j < b ==> #[trigger] q_of(s, state, acts[j]) < q_of(s, state, acts[b as int])
        }),
    decreases n,
{
    if n > 1 {
        lemma_best_idx_first_max(s, state, acts, (n - 1) as nat);
    }
}


/// Law: the greedily selected action attains exactly the maximum that the
/// learning update bootstraps from.
pub proof fn lemma_best_attains_max(s: Seq<QEntry>, state: u64, acts: Seq<u64>, n: nat)
    requires
        1 <= n <= acts.len(),
    ensures
        q_of(s, state, acts[best_idx(s, state, acts, n) as int]) == max_q(s, state, acts, n),
    decreases n,
{
    if n > 1 {
        lemma_best_attains_max(s, state, acts, (n - 1) as nat);
    }
}

/// What the update bootstraps from: the greatest estimate at the next state,
/// and exactly zero on a terminal transition.
pub open spec fn bootstrap(s: Seq<QEntry>, next_state: Option<u64>, next_actions: Seq<u64>) -> int {
    match next_state {
        None => 0,
        Some(ns) => max_q(s, ns, next_actions, next_actions.len()),
    }
}

/// The target of the learning update, `reward + gamma * max_next_q`,
/// saturating at the `i64` range.
pub open spec fn learn_target(reward: int, boot: int, gamma: int) -> int {
    clamp64_spec(reward + frac_mul_spec(boot, gamma))
}

/// The updated estimate: `(1 - alpha) * Q(s,a) + alpha * target`.
pub open spec fn learned_value(old_q: int, target: int, alpha: int) -> int {
    convex_spec(old_q, target, alpha)
}

/// Law: learning from an unseen pair and a terminal transition sets the
/// estimate to exactly `alpha * reward`, since both the prior estimate and
/// the bootstrap are zero.
pub proof fn lemma_learn_fresh_terminal(
    s: Seq<QEntry>,
    next_actions: Seq<u64>,
    state: u64,
    action: u64,
    reward: i64,
    alpha: int,
    gamma: int,
)
    requires
        !q_has(s, state, action),
        0 <= alpha <= SCALE,
    ensures
        learned_value(
            q_of(s, state, action),
            learn_target(reward as int, bootstrap(s, None, next_actions), gamma),
            alpha,
        ) == frac_mul_spec(reward as int, alpha),
{
    lemma_q_of_absent(s, state, action);
    assert(0 * gamma == 0) by (nonlinear_arith);
    assert((SCALE as int - alpha) * 0 == 0) by (nonlinear_arith);
    assert(alpha * (reward as int) == (reward as int) * alpha) by (nonlinear_arith);
}

/// Law: with `alpha` strictly inside `(0, 1)` one update moves the estimate
/// toward the target monotonically and never overshoots past it.
pub proof fn lemma_learn_no_overshoot(q: int, target: int, alpha: int)
    requires
        0 < alpha < SCALE,
    ensures
        q <= target ==> q <= learned_value(q, target, alpha) <= target,
        target <= q ==> target <= learned_value(q, target, alpha) <= q,
{
    lemma_convex_between(q, target, alpha);
}



/// The table read as a total valuation: every (state, action) pair mapped to
/// its estimate, unseen pairs to the neutral default.
pub open spec fn table_fn(s: Seq<QEntry>) -> Map<(u64, u64), int> {
    Map::new(|k: (u64, u64)| true, |k: (u64, u64)| q_of(s, k.0, k.1))
}

/// `max_q` over a valuation instead of a row sequence.
pub open spec fn max_q_m(m: Map<(u64, u64), int>, state: u64, acts: Seq<u64>, n: nat) -> int
    decreases n,
{
    if n == 0 {
        0
    } else if n == 1 {
        m[(state, acts[0])]
    } else {
        let p = max_q_m(m, state, acts, (n - 1) as nat);
        let v = m[(state, acts[n - 1])];
        if v > p {
            v
        } else {
            p
        }
    }
}

/// `bootstrap` over a valuation instead of a row sequence.
pub open spec fn bootstrap_m(
    m: Map<(u64, u64), int>,
    next_state: Option<u64>,
    next_actions: Seq<u64>,
) -> int {
    match next_state {
        None => 0,
        Some(ns) => max_q_m(m, ns, next_actions, next_actions.len()),
    }
}

/// One learning update applied to a valuation: what `learn` does to the
/// table, stated over the map of estimates.
pub open spec fn learn_step_m(
    m: Map<(u64, u64), int>,
    e: Exp,
    next_actions: Seq<u64>,
    alpha: int,
    gamma: int,
) -> Map<(u64, u64), int> {
    m.insert(
        (e.state, e.action),
        learned_value(
            m[(e.state, e.action)],
            learn_target(e.reward as int, bootstrap_m(m, e.next_state, next_actions), gamma),
            alpha,
        ),
    )
}

/// The learning updates of a whole trace of experience, folded in order over
/// a starting valuation.
pub open spec fn run_trace(
    m: Map<(u64, u64), int>,
    trace: Seq<(Exp, Seq<u64>)>,
    alpha: int,
    gamma: int,
) -> Map<(u64, u64), int>
    decreases trace.len(),
{
    if trace.len() == 0 {
        m
    } else {
        run_trace(
            learn_step_m(m, trace[0].0, trace[0].1, alpha, gamma),
            trace.drop_first(),
            alpha,
            gamma,
        )
    }
}

/// One completed episode, as a trace: at least one transition was learned,
/// the last one was terminal, and the final valuation is exactly the fold of
/// the learning update over the trace.
pub open spec fn episode_trace(
    m0: Map<(u64, u64), int>,
    mf: Map<(u64, u64), int>,
    trace: Seq<(Exp, Seq<u64>)>,
    alpha: int,
    gamma: int,
) -> bool {
    &&& trace.len() >= 1
    &&& trace.last().0.next_state is None
    &&& mf == run_trace(m0, trace, alpha, gamma)
}

/// The valuation reading of `max_q` agrees with the row reading.
proof fn lemma_max_q_agrees(s: Seq<QEntry>, state: u64, acts: Seq<u64>, n: nat)
    requires
        n <= acts.len(),
    ensures
        max_q_m(table_fn(s), state, acts, n) == max_q(s, state, acts, n),
    decreases n,
{
    if n > 1 {
        lemma_max_q_agrees(s, state, acts, (n - 1) as nat);
    }
}

/// Folding one more step equals one step after the fold.
proof fn lemma_run_trace_push(
    m: Map<(u64, u64), int>,
    trace: Seq<(Exp, Seq<u64>)>,
    x: (Exp, Seq<u64>),
    alpha: int,
    gamma: int,
)
    ensures
        run_trace(m, trace.push(x), alpha, gamma) == learn_step_m(
            run_trace(m, trace, alpha, gamma),
            x.0,
            x.1,
            alpha,
            gamma,
        ),
    decreases trace.len(),
{
    let u = trace.push(x);
    if trace.len() == 0 {
        assert(u[0] == x);
        assert(u.drop_first() =~= Seq::<(Exp, Seq<u64>)>::empty());
        let m1 = learn_step_m(m, x.0, x.1, alpha, gamma);
        assert(run_trace(m, u, alpha, gamma) == run_trace(m1, u.drop_first(), alpha, gamma));
        assert(run_trace(m1, u.drop_first(), alpha, gamma) == m1);
    } else {
        assert(u[0] == trace[0]);
        assert(u.drop_first() =~= trace.drop_first().push(x));
        let m1 = learn_step_m(m, trace[0].0, trace[0].1, alpha, gamma);
        lemma_run_trace_push(m1, trace.drop_first(), x, alpha, gamma);
        assert(run_trace(m, u, alpha, gamma) == run_trace(m1, u.drop_first(), alpha, gamma));
        assert(run_trace(m, trace, alpha, gamma) == run_trace(m1, trace.drop_first(), alpha, gamma));
    }
}

/// Law: under repeated identical experience the estimates form a monotone
/// chain between the first estimate and the fixed point `reward +
/// gamma * max_next_q`: the distance to the target never grows.
pub proof fn lemma_learn_repeated(q: int, target: int, alpha: int)
    requires
        0 < alpha < SCALE,
    ensures
        ({
            let v1 = learned_value(q, target, alpha);
            let v2 = learned_value(v1, target, alpha);
            &&& (q <= target ==> q <= v1 <= v2 <= target)
            &&& (target <= q ==> target <= v2 <= v1 <= q)
        }),
{
    let v1 = learned_value(q, target, alpha);
    lemma_convex_between(q, target, alpha);
    lemma_convex_between(v1, target, alpha);
}

/// A simple Q-learning agent that utilizes a Q-table to learn its
/// environment.
pub struct QTableAgent<D: Decay> {
    pub q_table: QTable,
    /// The learning rate, a fraction in `[0, SCALE]`.
    pub alpha: i64,
    /// The discount factor, a fraction in `[0, SCALE]`.
    pub gamma: i64,
    pub exploration: EpsilonGreedy<D>,
    /// The number of completed episodes; drives the decay schedule.
    pub episode: u32,
}

impl<D: Decay> QTableAgent<D> {
    /// The agent's invariant: the learning parameters are fractions in
    /// `[0, 1]` and the exploration schedule is well formed.
    pub open spec fn wf(&self) -> bool {
        0 <= self.alpha <= SCALE && 0 <= self.gamma <= SCALE && self.exploration.decay.wf()
    }

    /// Initialize a new agent in a given environment.
    ///
    /// - `alpha`: the learning rate — must be between 0 and 1
    /// - `gamma`: the discount factor — must be between 0 and 1
    /// - `exploration`: a customized [`EpsilonGreedy`] policy
    ///
    /// Fails exactly when `alpha` or `gamma` lies outside `[0, 1]`; an
    /// invalid agent is never constructed.
    pub fn new(alpha: i64, gamma: i64, exploration: EpsilonGreedy<D>) -> (r: Result<Self, String>)
        requires
            exploration.decay.wf(),
        ensures
            r is Ok <==> (0 <= alpha <= SCALE && 0 <= gamma <= SCALE),
            r matches Ok(agent) ==> agent.wf() && agent.alpha == alpha && agent.gamma == gamma
                && agent.exploration == exploration && agent.episode == 0
                && agent.q_table.entries@.len() == 0,
    {
        if alpha < 0 || alpha > SCALE {
            return Err(String::from_str("`alpha` must be in the interval [0, 1]"));
        }
        if gamma < 0 || gamma > SCALE {
            return Err(String::from_str("`gamma` must be in the interval [0, 1]"));
        }
        Ok(Self { q_table: QTable::new(), alpha, gamma, exploration, episode: 0 })
    }

    pub fn get_q_table(&self) -> (r: &QTable)
        ensures
            r == &self.q_table,
    {
        &self.q_table
    }

    /// The greedy half of action selection: scan the legal actions and pick
    /// the first one attaining the maximal estimate for `state`, unseen
    /// pairs defaulting to `0`.
    #[verifier::loop_isolation(false)]
    pub fn exploit(&self, state: u64, actions: &Vec<u64>) -> (r: u64)
        requires
            actions@.len() >= 1,
        ensures
            r == actions@[best_idx(self.q_table.entries@, state, actions@, actions@.len()) as int],
            forall|j: int|
                0 <= j < actions@.len() ==> #[trigger] q_of(
                    self.q_table.entries@,
                    state,
                    actions@[j],
                ) <= q_of(self.q_table.entries@, state, r),
    {
        proof {
            lemma_best_idx_first_max(self.q_table.entries@, state, actions@, actions@.len());
        }
        let mut best: usize = 0;
        let mut best_q: i64 = self.q_table.get(state, actions[0]);
        let mut i: usize = 1;
        while i < actions.len()
            invariant
                1 <= i <= actions@.len(),
                (best as int) < (i as int),
                best as nat == best_idx(self.q_table.entries@, state, actions@, i as nat),
                best_q as int == q_of(self.q_table.entries@, state, actions@[best as int]),
            decreases actions@.len() - i,
        {
            let v = self.q_table.get(state, actions[i]);
            if v > best_q {
                best = i;
                best_q = v;
            }
            i = i + 1;
        }
        actions[best]
    }

    /// Select an action: delegate the explore/exploit decision to the
    /// policy, explore through the environment's own choice, exploit through
    /// the Q-table. With the exploration threshold at or below zero the
    /// greedy choice is guaranteed.
    pub fn act<E: Environment>(&self, env: &E, state: u64, actions: &Vec<u64>) -> (r: u64)
        requires
            self.wf(),
            actions@.len() >= 1,
        ensures
            self.exploration.decay.spec_eval(self.episode as u64) <= 0 ==> r == actions@[best_idx(
                self.q_table.entries@,
                state,
                actions@,
                actions@.len(),
            ) as int],
    {
        match self.exploration.decide(self.episode as u64) {
            Choice::Explore => env.random_action(),
            Choice::Exploit => self.exploit(state, actions),
        }
    }

    /// One-step tabular Q-learning:
    /// `Q(s,a) <- (1 - alpha) * Q(s,a) + alpha * (r + gamma * max Q(s',a'))`,
    /// the bootstrap being exactly zero on a terminal transition. The visited
    /// pair's row is inserted or overwritten; no row is ever deleted.
    #[verifier::loop_isolation(false)]
    pub fn learn(&mut self, experience: Exp, next_actions: &Vec<u64>)
        requires
            old(self).wf(),
        ensures
            final(self).wf(),
            final(self).alpha == old(self).alpha,
            final(self).gamma == old(self).gamma,
            final(self).exploration == old(self).exploration,
            final(self).episode == old(self).episode,
            q_of(final(self).q_table.entries@, experience.state, experience.action)
                == learned_value(
                q_of(old(self).q_table.entries@, experience.state, experience.action),
                learn_target(
                    experience.reward as int,
                    bootstrap(old(self).q_table.entries@, experience.next_state, next_actions@),
                    old(self).gamma as int,
                ),
                old(self).alpha as int,
            ),
            q_has(final(self).q_table.entries@, experience.state, experience.action),
            q_has(old(self).q_table.entries@, experience.state, experience.action) ==> final(self).q_table.entries@.len() == old(self).q_table.entries@.len(),
            !q_has(old(self).q_table.entries@, experience.state, experience.action) ==> final(self).q_table.entries@.len() == old(self).q_table.entries@.len() + 1,
            forall|s2: u64, a2: u64|
                !(s2 == experience.state && a2 == experience.action) ==> #[trigger] q_of(
                    final(self).q_table.entries@,
                    s2,
                    a2,
                ) == q_of(old(self).q_table.entries@, s2, a2),
            forall|s2: u64, a2: u64|
                q_has(old(self).q_table.entries@, s2, a2) ==> #[trigger] q_has(
                    final(self).q_table.entries@,
                    s2,
                    a2,
                ),
    {
        let state = experience.state;
        let action = experience.action;
        let q_value = self.q_table.get(state, action);
        let boot: i64 = match experience.next_state {
            None => 0,
            Some(ns) => {
                if next_actions.len() == 0 {
                    0
                } else {
                    let mut m: i64 = self.q_table.get(ns, next_actions[0]);
                    let mut i: usize = 1;
                    while i < next_actions.len()
                        invariant
                            1 <= i <= next_actions@.len(),
                            m as int == max_q(self.q_table.entries@, ns, next_actions@, i as nat),
                        decreases next_actions@.len() - i,
                    {
                        let v = self.q_table.get(ns, next_actions[i]);
                        if v > m {
                            m = v;
                        }
                        i = i + 1;
                    }
                    m
                }
            },
        };
        proof {
            assert(boot as int == bootstrap(
                self.q_table.entries@,
                experience.next_state,
                next_actions@,
            ));
        }
        let scaled = frac_mul(boot, self.gamma);
        let target = add_sat(experience.reward, scaled);
        let new_q = convex(q_value, target, self.alpha);
        self.q_table.set(state, action, new_q);
    }

    /// Run exactly one full episode to completion: reset the environment,
    /// then select, step and learn until the environment reports a terminal
    /// transition, and finally advance the episode counter once. The value
    /// table only ever grows.
    pub fn go<E: Environment>(&mut self, env: &mut E)
        requires
            old(self).wf(),
            old(self).episode < u32::MAX,
        ensures
            final(self).wf(),
            final(self).episode == old(self).episode + 1,
            final(self).alpha == old(self).alpha,
            final(self).gamma == old(self).gamma,
            final(self).exploration == old(self).exploration,
            forall|s2: u64, a2: u64|
                q_has(old(self).q_table.entries@, s2, a2) ==> #[trigger] q_has(
                    final(self).q_table.entries@,
                    s2,
                    a2,
                ),
            exists|s2: u64, a2: u64| #[trigger] q_has(final(self).q_table.entries@, s2, a2),
            exists|trace: Seq<(Exp, Seq<u64>)>| #[trigger] episode_trace(
                table_fn(old(self).q_table.entries@),
                table_fn(final(self).q_table.entries@),
                trace,
                old(self).alpha as int,
                old(self).gamma as int,
            ),
    {
        let ghost m0 = table_fn(old(self).q_table.entries@);
        let ghost mut trace: Seq<(Exp, Seq<u64>)> = Seq::empty();
        let mut state: u64 = env.reset();
        let mut actions: Vec<u64> = env.actions();
        loop
            invariant
                self.wf(),
                self.alpha == old(self).alpha,
                self.gamma == old(self).gamma,
                self.exploration == old(self).exploration,
                self.episode == old(self).episode,
                actions@.len() >= 1,
                forall|s2: u64, a2: u64|
                    q_has(old(self).q_table.entries@, s2, a2) ==> #[trigger] q_has(
                        self.q_table.entries@,
                        s2,
                        a2,
                    ),
                m0 == table_fn(old(self).q_table.entries@),
                table_fn(self.q_table.entries@) == run_trace(
                    m0,
                    trace,
                    old(self).alpha as int,
                    old(self).gamma as int,
                ),
            ensures
                self.wf(),
                self.alpha == old(self).alpha,
                self.gamma == old(self).gamma,
                self.exploration == old(self).exploration,
                self.episode == old(self).episode,
                forall|s2: u64, a2: u64|
                    q_has(old(self).q_table.entries@, s2, a2) ==> #[trigger] q_has(
                        self.q_table.entries@,
                        s2,
                        a2,
                    ),
                exists|s2: u64, a2: u64| #[trigger] q_has(self.q_table.entries@, s2, a2),
                episode_trace(
                    m0,
                    table_fn(self.q_table.entries@),
                    trace,
                    old(self).alpha as int,
                    old(self).gamma as int,
                ),
            decreases env.horizon(),
        {
            let action = self.act(env, state, &actions);
            let (next, reward) = env.step(action);
            actions = env.actions();
            let exp = Exp { state, action, next_state: next, reward };
            let ghost pre = self.q_table.entries@;
            self.learn(exp, &actions);
            proof {
                let a = old(self).alpha as int;
                let g = old(self).gamma as int;
                let mid_m = table_fn(pre);
                let new_m = table_fn(self.q_table.entries@);
                match exp.next_state {
                    Some(ns) => {
                        lemma_max_q_agrees(pre, ns, actions@, actions@.len());
                    },
                    None => {
                    },
                }
                assert(bootstrap_m(mid_m, exp.next_state, actions@) == bootstrap(
                    pre,
                    exp.next_state,
                    actions@,
                ));
                let stepped = learn_step_m(mid_m, exp, actions@, a, g);
                assert forall|k: (u64, u64)| true implies #[trigger] new_m[k] == stepped[k] by {
                    if k == (exp.state, exp.action) {
                        assert(mid_m[k] == q_of(pre, k.0, k.1));
                        assert(new_m[k] == q_of(self.q_table.entries@, k.0, k.1));
                    } else {
                        assert(mid_m[k] == q_of(pre, k.0, k.1));
                        assert(new_m[k] == q_of(self.q_table.entries@, k.0, k.1));
                        assert(q_of(self.q_table.entries@, k.0, k.1) == q_of(pre, k.0, k.1));
                    }
                }
                assert(new_m =~= stepped);
                let t0 = trace;
                trace = trace.push((exp, actions@));
                lemma_run_trace_push(m0, t0, (exp, actions@), a, g);
                assert(run_trace(m0, t0, a, g) == mid_m);
                assert(new_m == run_trace(m0, trace, a, g));
            }
            match next {
                None => {
                    proof {
                        assert(q_has(self.q_table.entries@, state, action));
                        assert(trace.last() == (exp, actions@));
                        assert(episode_trace(
                            m0,
                            table_fn(self.q_table.entries@),
                            trace,
                            old(self).alpha as int,
                            old(self).gamma as int,
                        ));
                    }
                    break ;
                },
                Some(s) => {
                    state = s;
                },
            }
        }
        let ghost w: (u64, u64) = choose|s2: u64, a2: u64|
            q_has(self.q_table.entries@, s2, a2);
        proof {
            assert(q_has(self.q_table.entries@, w.0, w.1));
        }
        self.episode = self.episode + 1;
        proof {
            assert(q_has(self.q_table.entries@, w.0, w.1));
            assert(episode_trace(
                m0,
                table_fn(self.q_table.entries@),
                trace,
                old(self).alpha as int,
                old(self).gamma as int,
            ));
        }
    }
}

} // verus!
