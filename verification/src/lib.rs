//! A tabular reinforcement-learning engine: decay schedules that anneal a
//! scalar over training, an epsilon-greedy exploration policy built on them,
//! and a Q-table agent that learns action values by one-step temporal
//! difference updates.
//!
//! Every scalar (rates, values, rewards, the learning parameters) is a
//! fixed-point number: an `i64` that stands for `value / SCALE`.

pub mod decay;
pub mod env;
pub mod exploration;
pub mod memory;
pub mod num;
pub mod q_table;
pub mod tabular;
