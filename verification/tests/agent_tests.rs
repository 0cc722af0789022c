use qlearn::decay::Constant;
use qlearn::env::Environment;
use qlearn::exploration::{Choice, EpsilonGreedy};
use qlearn::memory::Exp;
use qlearn::q_table::QTableAgent;

const ONE: i64 = 1_000_000;

fn greedy_agent(alpha: i64, gamma: i64) -> QTableAgent<Constant> {
    // a constant threshold of zero always exploits
    QTableAgent::new(alpha, gamma, EpsilonGreedy::new(Constant::new(0))).unwrap()
}

#[test]
fn agent_construction_boundaries() {
    let ok = |a: i64, g: i64| {
        QTableAgent::new(a, g, EpsilonGreedy::new(Constant::new(0))).is_ok()
    };
    assert!(ok(0, 0));
    assert!(ok(ONE, ONE));
    assert!(ok(500_000, 900_000));
    assert!(!ok(-1, 0));
    assert!(!ok(0, -1));
    assert!(!ok(ONE + 1, 0));
    assert!(!ok(0, ONE + 1));
}

#[test]
fn agent_construction_error_messages() {
    match QTableAgent::new(2 * ONE, 0, EpsilonGreedy::new(Constant::new(0))) {
        Err(e) => assert_eq!(e.as_str(), "`alpha` must be in the interval [0, 1]"),
        Ok(_) => panic!("construction must fail"),
    }
    match QTableAgent::new(0, 2 * ONE, EpsilonGreedy::new(Constant::new(0))) {
        Err(e) => assert_eq!(e.as_str(), "`gamma` must be in the interval [0, 1]"),
        Ok(_) => panic!("construction must fail"),
    }
}

#[test]
fn decide_at_extreme_thresholds() {
    let always_exploit = EpsilonGreedy::new(Constant::new(0));
    let always_explore = EpsilonGreedy::new(Constant::new(ONE));
    for episode in 0..50 {
        assert_eq!(always_exploit.decide(episode), Choice::Exploit);
        assert_eq!(always_explore.decide(episode), Choice::Explore);
    }
}

#[test]
fn learn_fresh_terminal_sets_alpha_times_reward() {
    let mut agent = greedy_agent(500_000, 900_000);
    agent.learn(Exp { state: 0, action: 0, next_state: None, reward: ONE }, &vec![]);
    // prior estimate and bootstrap are both zero: exactly alpha * reward
    assert_eq!(agent.get_q_table().get(0, 0), 500_000);
    // the other pairs still read as the neutral default
    assert_eq!(agent.get_q_table().get(0, 1), 0);
}

#[test]
fn unseen_pairs_are_not_materialized() {
    let mut agent = greedy_agent(500_000, 900_000);
    assert!(!agent.get_q_table().contains(0, 0));
    assert_eq!(agent.get_q_table().get(0, 0), 0);
    agent.learn(Exp { state: 0, action: 0, next_state: None, reward: ONE }, &vec![]);
    assert!(agent.get_q_table().contains(0, 0));
    assert!(!agent.get_q_table().contains(0, 1));
}

#[test]
fn repeated_learn_moves_monotonically_without_overshoot() {
    let mut agent = greedy_agent(500_000, 900_000);
    // fixed point of this experience: reward + gamma * 0 = 1.0
    let mut prev = 0i64;
    for _ in 0..60 {
        agent.learn(Exp { state: 3, action: 1, next_state: None, reward: ONE }, &vec![]);
        let q = agent.get_q_table().get(3, 1);
        assert!(q >= prev, "estimate moved away from the target");
        assert!(q <= ONE, "estimate overshot the fixed point");
        prev = q;
    }
    assert!(prev >= ONE - 10, "estimate did not approach the fixed point: {prev}");
}

#[test]
fn learn_bootstraps_from_best_next_action() {
    let mut agent = greedy_agent(ONE, 900_000);
    // with alpha = 1 a terminal update writes the raw reward
    agent.learn(Exp { state: 1, action: 0, next_state: None, reward: 200_000 }, &vec![]);
    agent.learn(Exp { state: 1, action: 1, next_state: None, reward: 600_000 }, &vec![]);
    // now learn a transition into state 1: target = 0 + 0.9 * max(0.2, 0.6)
    agent.learn(
        Exp { state: 0, action: 0, next_state: Some(1), reward: 0 },
        &vec![0, 1],
    );
    assert_eq!(agent.get_q_table().get(0, 0), 540_000);
}

#[test]
fn exploit_breaks_ties_toward_first_action() {
    let mut agent = greedy_agent(ONE, 0);
    // two actions share the same estimate
    agent.learn(Exp { state: 0, action: 7, next_state: None, reward: 500 }, &vec![]);
    agent.learn(Exp { state: 0, action: 9, next_state: None, reward: 500 }, &vec![]);
    assert_eq!(agent.exploit(0, &vec![9, 7]), 9);
    assert_eq!(agent.exploit(0, &vec![7, 9]), 7);
    // a strictly greater estimate wins wherever it stands
    agent.learn(Exp { state: 0, action: 9, next_state: None, reward: 600 }, &vec![]);
    assert_eq!(agent.exploit(0, &vec![7, 9]), 9);
    // unseen actions read as zero and lose to a positive estimate
    assert_eq!(agent.exploit(0, &vec![4, 9, 7]), 9);
}

/// A deterministic two-state, two-action task: action 0 moves from the start
/// state to state 1 with reward 1; everything else ends the episode with
/// reward 0.
struct ToyEnv {
    state: u64,
}

impl Environment for ToyEnv {
    fn reset(&mut self) -> u64 {
        self.state = 0;
        0
    }

    fn actions(&self) -> Vec<u64> {
        vec![0, 1]
    }

    fn step(&mut self, action: u64) -> (Option<u64>, i64) {
        if self.state == 0 && action == 0 {
            self.state = 1;
            (Some(1), ONE)
        } else {
            (None, 0)
        }
    }

    fn random_action(&self) -> u64 {
        0
    }
}

#[test]
fn toy_environment_converges_to_fixed_point() {
    // alpha = 0.5, gamma = 0.9, epsilon pinned at 0: always exploit
    let mut agent = greedy_agent(500_000, 900_000);
    let mut env = ToyEnv { state: 0 };
    for _ in 0..40 {
        agent.go(&mut env);
    }
    assert_eq!(agent.episode, 40);
    // Q(0, 0) -> r + gamma * max Q(1, .) = 1.0 + 0.9 * 0 = 1.0
    let q00 = agent.get_q_table().get(0, 0);
    assert!((q00 - ONE).abs() <= 10, "Q(0,0) = {q00}");
    // the rewardless continuations stay at zero
    assert_eq!(agent.get_q_table().get(1, 0), 0);
    assert_eq!(agent.get_q_table().get(1, 1), 0);
    assert_eq!(agent.get_q_table().get(0, 1), 0);
}
