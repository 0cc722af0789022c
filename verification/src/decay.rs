use vstd::prelude::*;

verus! {

use crate::num::{
    SCALE, tdiv, tdiv_gen, frac_mul_spec, tdiv128, tdiv128_gen, lemma_tdiv_between,
    lemma_tdiv_gen_abs,
};
use vstd::arithmetic::div_mod::{
    lemma_basic_div,
    lemma_div_is_ordered,
    lemma_div_is_ordered_by_denominator,
    lemma_div_multiples_vanish,
    lemma_div_of0,
    lemma_div_pos_is_pos,
    lemma_multiply_divide_le,
    lemma_multiply_divide_lt,
};

/// Magnitude cap on decay parameters (`rate`, `vi`, `vf`): one million whole
/// units. Keeps every intermediate product of `evaluate` inside `i64`.
pub const VAL_CAP: i64 = 1_000_000_000_000;

/// Internal scale of the exponential factor: `S12` stands for `1.0`.
pub const S12: u64 = 1_000_000_000_000;

/// `e^(-1/SCALE)` at scale `S12`, truncated: the factor an exponential
/// schedule loses per smallest unit of `rate * t`.
pub const EXP_STEP: u64 = 999_999_000_000;

/// Cap on the growth factor of an exponential schedule with negative rate
/// (`1_000_000.0` at scale `S12`).
pub const GROWTH_CAP: u64 = 1_000_000_000_000_000_000;

/// Magnitude cap on the geometric chain of a `Step` schedule.
pub const CHAIN_CAP: i64 = 2_000_000_000_000_000_000;

/// An implementation of a time-decaying value.
///
/// `t` is elapsed training time: the number of completed episodes.
pub trait Decay {
    /// The parameters are well formed: the construction-time invariant.
    spec fn wf(&self) -> bool;

    /// The value of the schedule at time `t`.
    spec fn spec_eval(&self, t: u64) -> int;

    /// Calculate value at time `t`.
    fn evaluate(&self, t: u64) -> (v: i64)
        requires
            self.wf(),
        ensures
            v as int == self.spec_eval(t),
    ;
}

/// The construction-time sign invariant: a nonnegative rate must anneal a
/// value downward toward `vf`, a negative rate upward toward it.
pub open spec fn sign_ok(rate: int, vi: int, vf: int) -> bool {
    (rate >= 0 && vi > vf) || (rate < 0 && vi < vf)
}

/// The parameter fits under the magnitude cap.
pub open spec fn in_cap(x: int) -> bool {
    -VAL_CAP <= x <= VAL_CAP
}

fn validate(rate: i64, vi: i64, vf: i64) -> (r: Result<(), String>)
    ensures
        r is Ok <==> sign_ok(rate as int, vi as int, vf as int),
{
    if (rate >= 0 && vi > vf) || (rate < 0 && vi < vf) {
        Ok(())
    } else {
        Err(String::from_str("`vi - vf` must have same sign as `rate`"))
    }
}

/// A constant value
pub struct Constant {
    pub value: i64,
}

impl Constant {
    pub fn new(value: i64) -> (r: Self)
        ensures
            r.value == value,
            r.wf(),
    {
        Self { value }
    }
}

impl Decay for Constant {
    open spec fn wf(&self) -> bool {
        true
    }

    open spec fn spec_eval(&self, t: u64) -> int {
        self.value as int
    }

    fn evaluate(&self, _t: u64) -> (v: i64) {
        self.value
    }
}

/// `(EXP_STEP / S12)^n` at scale `S12`, one truncation per factor: the
/// fixed-point reading of `e^(-n/SCALE)`.
pub open spec fn epow(n: nat) -> int
    decreases n,
{
    if n == 0 {
        S12 as int
    } else {
        tdiv(EXP_STEP as int * epow((n - 1) as nat), S12 as int)
    }
}

pub proof fn lemma_epow_bounds(n: nat)
    ensures
        0 <= epow(n) <= S12,
    decreases n,
{
    if n > 0 {
        lemma_epow_bounds((n - 1) as nat);
        let p = epow((n - 1) as nat);
        assert(S12 as int * 0 <= EXP_STEP as int * p && EXP_STEP as int * p <= S12 as int
            * S12 as int) by (nonlinear_arith)
            requires
                0 <= p <= S12,
        ;
        lemma_tdiv_between(EXP_STEP as int * p, S12 as int, 0, S12 as int);
    }
}

/// Once the chain reaches zero it stays there.
pub proof fn lemma_epow_stall(k: nat, n: nat)
    requires
        epow(k) == 0,
        k <= n,
    ensures
        epow(n) == 0,
    decreases n - k,
{
    if n > k {
        lemma_epow_stall(k, (n - 1) as nat);
        assert(EXP_STEP as int * 0 == 0) by (nonlinear_arith);
    }
}

/// Each truncated multiplication loses at least one unit, so the factor is
/// exactly zero from `n == S12` on.
pub proof fn lemma_epow_zero(n: nat)
    requires
        n >= S12,
    ensures
        epow(n) == 0,
{
    lemma_epow_progress(S12 as nat);
    lemma_epow_bounds(S12 as nat);
    lemma_epow_stall(S12 as nat, n);
}

proof fn lemma_epow_progress(k: nat)
    ensures
        epow(k) == 0 || epow(k) + k <= S12,
    decreases k,
{
    if k > 0 {
        let j = (k - 1) as nat;
        lemma_epow_progress(j);
        lemma_epow_bounds(j);
        lemma_epow_bounds(k);
        let p = epow(j);
        if p == 0 {
            lemma_epow_stall(j, k);
        } else {
            assert(EXP_STEP as int * p >= 0) by (nonlinear_arith)
                requires
                    p >= 1,
            ;
            assert(EXP_STEP as int * p < S12 as int * p) by (nonlinear_arith)
                requires
                    p >= 1,
            ;
            lemma_multiply_divide_lt(EXP_STEP as int * p, S12 as int, p);
            assert(epow(k) < p);
        }
    }
}


/// The truncated power chain never grows as the exponent grows.
pub proof fn lemma_epow_monotone(n1: nat, n2: nat)
    requires
        n1 <= n2,
    ensures
        epow(n2) <= epow(n1),
    decreases n2 - n1,
{
    if n2 > n1 {
        lemma_epow_monotone(n1, (n2 - 1) as nat);
        let p = epow((n2 - 1) as nat);
        lemma_epow_bounds((n2 - 1) as nat);
        assert(EXP_STEP as int * p <= S12 as int * p) by (nonlinear_arith)
            requires
                p >= 0,
        ;
        assert(EXP_STEP as int * p >= 0) by (nonlinear_arith)
            requires
                p >= 0,
        ;
        lemma_multiply_divide_le(EXP_STEP as int * p, S12 as int, p);
    }
}

/// The truncated power chain, evaluated by one multiplication per unit of the
/// exponent, stopping once the factor underflows to zero.
fn epow_exec(n: u128) -> (r: u64)
    ensures
        r as int == epow(n as nat),
        r <= S12,
{
    let mut acc: u64 = S12;
    let mut i: u128 = 0;
    while i < n && acc > 0
        invariant
            i <= n,
            acc as int == epow(i as nat),
            acc <= S12,
        decreases n - i,
    {
        let p: u128 = (EXP_STEP as u128) * (acc as u128);
        proof {
            assert(EXP_STEP as int * acc as int <= S12 as int * S12 as int) by (nonlinear_arith)
                requires
                    0 <= acc as int <= S12 as int,
            ;
            lemma_div_pos_is_pos(p as int, S12 as int);
            lemma_multiply_divide_le(p as int, S12 as int, S12 as int);
        }
        let q: u128 = p / (S12 as u128);
        acc = q as u64;
        i = i + 1;
    }
    proof {
        if i < n {
            lemma_epow_stall(i as nat, n as nat);
        }
    }
    acc
}

/// v(t) = v<sub>f</sub> + (v<sub>i</sub> - v<sub>f</sub>) * e<sup>-rt</sup>
pub struct Exponential {
    pub rate: i64,
    pub vi: i64,
    pub vf: i64,
}

impl Exponential {
    pub fn new(rate: i64, vi: i64, vf: i64) -> (r: Result<Self, String>)
        requires
            in_cap(rate as int),
            in_cap(vi as int),
            in_cap(vf as int),
        ensures
            r is Ok <==> sign_ok(rate as int, vi as int, vf as int),
            r matches Ok(d) ==> d == (Exponential { rate, vi, vf }) && d.wf(),
    {
        match validate(rate, vi, vf) {
            Ok(()) => Ok(Self { rate, vi, vf }),
            Err(e) => Err(e),
        }
    }
}

/// The value of an exponential schedule: for a nonnegative rate the factor is
/// the truncated power chain `epow(rate * t)`; for a negative rate its
/// reciprocal, capped at `GROWTH_CAP`.
pub open spec fn exp_eval(rate: int, vi: int, vf: int, t: u64) -> int {
    let diff = vi - vf;
    if rate >= 0 {
        vf + tdiv(diff * epow((rate * t) as nat), S12 as int)
    } else {
        vf + tdiv(diff * exp_growth((-rate * t) as nat), S12 as int)
    }
}

/// The growth factor `e^(n/SCALE)` at scale `S12`: the reciprocal of the
/// decay chain, capped at `GROWTH_CAP`.
pub open spec fn exp_growth(n: nat) -> int {
    let p = epow(n);
    if p == 0 {
        GROWTH_CAP as int
    } else if S12 as int * S12 as int / p > GROWTH_CAP as int {
        GROWTH_CAP as int
    } else {
        S12 as int * S12 as int / p
    }
}

impl Decay for Exponential {
    open spec fn wf(&self) -> bool {
        sign_ok(self.rate as int, self.vi as int, self.vf as int) && in_cap(self.rate as int)
            && in_cap(self.vi as int) && in_cap(self.vf as int)
    }

    open spec fn spec_eval(&self, t: u64) -> int {
        exp_eval(self.rate as int, self.vi as int, self.vf as int, t)
    }

    fn evaluate(&self, t: u64) -> (v: i64) {
        let diff: i64 = self.vi - self.vf;
        if self.rate >= 0 {
            proof {
                assert(self.rate as int * t as int <= VAL_CAP as int * u64::MAX as int)
                    by (nonlinear_arith)
                    requires
                        0 <= self.rate as int <= VAL_CAP as int,
                        0 <= t as int <= u64::MAX as int,
                ;
            }
            let n: u128 = (self.rate as u128) * (t as u128);
            let f = epow_exec(n);
            proof {
                assert(-(VAL_CAP as int * 2 * S12 as int) <= diff as int * f as int <= VAL_CAP as int
                    * 2 * S12 as int) by (nonlinear_arith)
                    requires
                        -2 * VAL_CAP as int <= diff as int <= 2 * VAL_CAP as int,
                        0 <= f as int <= S12 as int,
                ;
                lemma_tdiv_between(
                    diff as int * f as int,
                    S12 as int,
                    -(VAL_CAP as int * 2),
                    VAL_CAP as int * 2,
                );
            }
            let num: i128 = (diff as i128) * (f as i128);
            let q = tdiv128(num, S12);
            self.vf + (q as i64)
        } else {
            proof {
                assert((-self.rate as int) * t as int <= VAL_CAP as int * u64::MAX as int
                    && (-self.rate as int) * t as int >= 0) by (nonlinear_arith)
                    requires
                        0 <= -self.rate as int <= VAL_CAP as int,
                        0 <= t as int <= u64::MAX as int,
                ;
            }
            let n: u128 = ((-self.rate) as u128) * (t as u128);
            let p = epow_exec(n);
            let g: u64 = if p == 0 {
                GROWTH_CAP
            } else {
                proof {
                    lemma_div_pos_is_pos(S12 as int * S12 as int, p as int);
                }
                let full: u128 = ((S12 as u128) * (S12 as u128)) / (p as u128);
                if full > GROWTH_CAP as u128 {
                    GROWTH_CAP
                } else {
                    full as u64
                }
            };
            proof {
                assert(-(VAL_CAP as int * 2 * GROWTH_CAP as int) <= diff as int * g as int
                    <= VAL_CAP as int * 2 * GROWTH_CAP as int) by (nonlinear_arith)
                    requires
                        -2 * VAL_CAP as int <= diff as int <= 2 * VAL_CAP as int,
                        0 <= g as int <= GROWTH_CAP as int,
                ;
                assert(S12 as int * (VAL_CAP as int * 2 * GROWTH_CAP as int / S12 as int)
                    <= VAL_CAP as int * 2 * GROWTH_CAP as int);
                lemma_tdiv_between(
                    diff as int * g as int,
                    S12 as int,
                    -(VAL_CAP as int * 2 * GROWTH_CAP as int / S12 as int),
                    VAL_CAP as int * 2 * GROWTH_CAP as int / S12 as int,
                );
            }
            let num: i128 = (diff as i128) * (g as i128);
            let q = tdiv128(num, S12);
            self.vf + (q as i64)
        }
    }
}

/// v(t) = v<sub>f</sub> + (v<sub>i</sub> - v<sub>f</sub>) / (1 + rt)
pub struct InverseTime {
    pub rate: i64,
    pub vi: i64,
    pub vf: i64,
}

impl InverseTime {
    pub fn new(rate: i64, vi: i64, vf: i64) -> (r: Result<Self, String>)
        requires
            in_cap(rate as int),
            in_cap(vi as int),
            in_cap(vf as int),
        ensures
            r is Ok <==> sign_ok(rate as int, vi as int, vf as int),
            r matches Ok(d) ==> d == (InverseTime { rate, vi, vf }) && d.wf(),
    {
        match validate(rate, vi, vf) {
            Ok(()) => Ok(Self { rate, vi, vf }),
            Err(e) => Err(e),
        }
    }
}

/// The value of an inverse-time schedule. The denominator `1 + rate * t` is
/// taken at scale `SCALE`; at its pole (reachable only with a negative rate)
/// the value saturates, standing in for the infinity of the real formula.
pub open spec fn inv_time_eval(rate: int, vi: int, vf: int, t: u64) -> int {
    let diff = vi - vf;
    let denom = SCALE + rate * t;
    if denom == 0 {
        if diff >= 0 {
            i64::MAX as int
        } else {
            i64::MIN as int
        }
    } else {
        vf + tdiv_gen(diff * SCALE, denom)
    }
}

impl Decay for InverseTime {
    open spec fn wf(&self) -> bool {
        sign_ok(self.rate as int, self.vi as int, self.vf as int) && in_cap(self.rate as int)
            && in_cap(self.vi as int) && in_cap(self.vf as int)
    }

    open spec fn spec_eval(&self, t: u64) -> int {
        inv_time_eval(self.rate as int, self.vi as int, self.vf as int, t)
    }

    fn evaluate(&self, t: u64) -> (v: i64) {
        let diff: i64 = self.vi - self.vf;
        proof {
            assert(-(VAL_CAP as int * u64::MAX as int) <= self.rate as int * t as int <= VAL_CAP as int
                * u64::MAX as int) by (nonlinear_arith)
                requires
                    -VAL_CAP as int <= self.rate as int <= VAL_CAP as int,
                    0 <= t as int <= u64::MAX as int,
            ;
        }
        let denom: i128 = (SCALE as i128) + (self.rate as i128) * (t as i128);
        if denom == 0 {
            if diff >= 0 {
                i64::MAX
            } else {
                i64::MIN
            }
        } else {
            let num: i128 = (diff as i128) * (SCALE as i128);
            proof {
                lemma_tdiv_gen_abs(num as int, denom as int);
            }
            let q = tdiv128_gen(num, denom);
            self.vf + (q as i64)
        }
    }
}

/// v(t) = max(v<sub>i</sub> - rt, v<sub>f</sub>), or min once a negative rate
/// makes the value grow toward its ceiling.
pub struct Linear {
    pub rate: i64,
    pub vi: i64,
    pub vf: i64,
}

impl Linear {
    pub fn new(rate: i64, vi: i64, vf: i64) -> (r: Result<Self, String>)
        requires
            in_cap(rate as int),
            in_cap(vi as int),
            in_cap(vf as int),
        ensures
            r is Ok <==> sign_ok(rate as int, vi as int, vf as int),
            r matches Ok(d) ==> d == (Linear { rate, vi, vf }) && d.wf(),
    {
        match validate(rate, vi, vf) {
            Ok(()) => Ok(Self { rate, vi, vf }),
            Err(e) => Err(e),
        }
    }
}

/// The value of a linear schedule: `vi - rate * t`, clamped at the floor `vf`
/// for a nonnegative rate and at the ceiling `vf` for a negative one.
pub open spec fn linear_eval(rate: int, vi: int, vf: int, t: u64) -> int {
    let x = vi - rate * t;
    if rate >= 0 {
        if x >= vf {
            x
        } else {
            vf
        }
    } else {
        if x <= vf {
            x
        } else {
            vf
        }
    }
}

impl Decay for Linear {
    open spec fn wf(&self) -> bool {
        sign_ok(self.rate as int, self.vi as int, self.vf as int) && in_cap(self.rate as int)
            && in_cap(self.vi as int) && in_cap(self.vf as int)
    }

    open spec fn spec_eval(&self, t: u64) -> int {
        linear_eval(self.rate as int, self.vi as int, self.vf as int, t)
    }

    fn evaluate(&self, t: u64) -> (v: i64) {
        proof {
            assert(-(VAL_CAP as int * u64::MAX as int) <= self.rate as int * t as int <= VAL_CAP as int
                * u64::MAX as int) by (nonlinear_arith)
                requires
                    -VAL_CAP as int <= self.rate as int <= VAL_CAP as int,
                    0 <= t as int <= u64::MAX as int,
            ;
        }
        proof {
            assert((self.rate as int) >= 0 ==> self.rate as int * t as int >= 0) by (nonlinear_arith);
            assert(((self.rate as int) < 0) ==> self.rate as int * t as int <= 0) by (nonlinear_arith);
        }
        let x: i128 = (self.vi as i128) - (self.rate as i128) * (t as i128);
        if self.rate >= 0 {
            if x >= self.vf as i128 {
                x as i64
            } else {
                self.vf
            }
        } else {
            if x <= self.vf as i128 {
                x as i64
            } else {
                self.vf
            }
        }
    }
}

/// v(t) = max(v<sub>i</sub> * r<sup>floor(t/s)</sup>, v<sub>f</sub>)
pub struct Step {
    pub rate: i64,
    pub vi: i64,
    pub vf: i64,
    pub step: u64,
}

impl Step {
    pub fn new(rate: i64, vi: i64, vf: i64, step: u64) -> (r: Result<Self, String>)
        requires
            in_cap(rate as int),
            in_cap(vi as int),
            in_cap(vf as int),
        ensures
            r is Ok <==> sign_ok(rate as int, vi as int, vf as int) && step >= 1,
            r matches Ok(d) ==> d == (Step { rate, vi, vf, step }) && d.wf(),
    {
        if step == 0 {
            return Err(String::from_str("`step` must be positive"));
        }
        match validate(rate, vi, vf) {
            Ok(()) => Ok(Self { rate, vi, vf, step }),
            Err(e) => Err(e),
        }
    }
}

/// `x` clamped into the chain cap.
pub open spec fn clamp_chain(x: int) -> int {
    if x > CHAIN_CAP as int {
        CHAIN_CAP as int
    } else if x < -CHAIN_CAP as int {
        -CHAIN_CAP as int
    } else {
        x
    }
}

/// The truncated geometric chain `vi * rate^k`, one truncation per factor,
/// clamped into the chain cap at every step.
pub open spec fn schain(vi: int, rate: int, k: nat) -> int
    decreases k,
{
    if k == 0 {
        vi
    } else {
        clamp_chain(frac_mul_spec(schain(vi, rate, (k - 1) as nat), rate))
    }
}

/// Once one link of the chain repeats, every later link repeats too.
pub proof fn lemma_schain_stall(vi: int, rate: int, j: nat, k: nat)
    requires
        clamp_chain(frac_mul_spec(schain(vi, rate, j), rate)) == schain(vi, rate, j),
        j <= k,
    ensures
        schain(vi, rate, k) == schain(vi, rate, j),
    decreases k - j,
{
    if k > j {
        lemma_schain_stall(vi, rate, j, (k - 1) as nat);
    }
}

/// The value of a step schedule: the chain advances one link per completed
/// `step`-sized stage, clamped below at `vf`.
pub open spec fn step_eval(rate: int, vi: int, vf: int, step: u64, t: u64) -> int
    recommends
        step >= 1,
{
    let c = schain(vi, rate, (t as int / step as int) as nat);
    if c >= vf {
        c
    } else {
        vf
    }
}

fn schain_exec(vi: i64, rate: i64, k: u64) -> (r: i64)
    requires
        in_cap(vi as int),
        in_cap(rate as int),
    ensures
        r as int == schain(vi as int, rate as int, k as nat),
        -CHAIN_CAP <= r <= CHAIN_CAP,
{
    let mut acc: i64 = vi;
    let mut i: u64 = 0;
    while i < k
        invariant_except_break
            i <= k,
            in_cap(vi as int),
            in_cap(rate as int),
            acc as int == schain(vi as int, rate as int, i as nat),
            -CHAIN_CAP <= acc <= CHAIN_CAP,
        ensures
            acc as int == schain(vi as int, rate as int, k as nat),
            -CHAIN_CAP <= acc <= CHAIN_CAP,
        decreases k - i,
    {
        proof {
            assert(-(CHAIN_CAP as int * VAL_CAP as int) <= acc as int * rate as int <= CHAIN_CAP as int
                * VAL_CAP as int) by (nonlinear_arith)
                requires
                    -CHAIN_CAP as int <= acc as int <= CHAIN_CAP as int,
                    -VAL_CAP as int <= rate as int <= VAL_CAP as int,
            ;
            lemma_tdiv_gen_abs(acc as int * rate as int, SCALE as int);
        }
        let p: i128 = (acc as i128) * (rate as i128);
        let q = tdiv128(p, SCALE as u64);
        let nx: i64 = if q > CHAIN_CAP as i128 {
            CHAIN_CAP
        } else if q < -CHAIN_CAP as i128 {
            -CHAIN_CAP
        } else {
            proof {
                lemma_tdiv_between(
                    p as int,
                    SCALE as int,
                    -(CHAIN_CAP as int * VAL_CAP as int),
                    CHAIN_CAP as int * VAL_CAP as int,
                );
            }
            q as i64
        };
        if nx == acc {
            proof {
                lemma_schain_stall(vi as int, rate as int, i as nat, k as nat);
            }
            break ;
        }
        acc = nx;
        i = i + 1;
    }
    acc
}

impl Decay for Step {
    open spec fn wf(&self) -> bool {
        sign_ok(self.rate as int, self.vi as int, self.vf as int) && in_cap(self.rate as int)
            && in_cap(self.vi as int) && in_cap(self.vf as int) && self.step >= 1
    }

    open spec fn spec_eval(&self, t: u64) -> int {
        step_eval(self.rate as int, self.vi as int, self.vf as int, self.step, t)
    }

    fn evaluate(&self, t: u64) -> (v: i64) {
        let k = t / self.step;
        let c = schain_exec(self.vi, self.rate, k);
        if c >= self.vf {
            c
        } else {
            self.vf
        }
    }
}


/// Law: every well-formed schedule starts at `vi` — the exponential case.
pub proof fn lemma_exponential_at_zero(d: Exponential)
    requires
        d.wf(),
    ensures
        d.spec_eval(0) == d.vi,
{
    let diff = d.vi as int - d.vf as int;
    assert(epow(0) == S12 as int);
    if d.rate >= 0 {
        assert(d.rate as int * 0 == 0) by (nonlinear_arith);
        assert(tdiv(diff * S12 as int, S12 as int) == diff) by {
            lemma_tdiv_multiple(diff);
        }
    } else {
        assert((-d.rate as int) * 0 == 0) by (nonlinear_arith);
        assert(exp_growth(0) == S12 as int);
        assert(tdiv(diff * S12 as int, S12 as int) == diff) by {
            lemma_tdiv_multiple(diff);
        }
    }
}

/// `(x * S12) / S12 == x` under truncating division, for either sign of `x`.
proof fn lemma_tdiv_multiple(x: int)
    ensures
        tdiv(x * S12 as int, S12 as int) == x,
{
    if x >= 0 {
        assert(x * S12 as int == S12 as int * x) by (nonlinear_arith);
        lemma_div_multiples_vanish(x, S12 as int);
    } else {
        assert(-(x * S12 as int) == S12 as int * (-x)) by (nonlinear_arith);
        lemma_div_multiples_vanish(-x, S12 as int);
    }
}

/// Law: with a nonnegative rate an exponential schedule stays in `[vf, vi]`,
/// annealing from its initial value toward its floor.
pub proof fn lemma_exponential_bounded(d: Exponential, t: u64)
    requires
        d.wf(),
        d.rate >= 0,
    ensures
        d.vf as int <= d.spec_eval(t) <= d.vi as int,
{
    let diff = d.vi as int - d.vf as int;
    let n = (d.rate as int * t as int) as nat;
    lemma_epow_bounds(n);
    let f = epow(n);
    assert(d.rate as int * t as int >= 0) by (nonlinear_arith)
        requires
            d.rate as int >= 0,
            t as int >= 0,
    ;
    assert(S12 as int * 0 <= diff * f && diff * f <= S12 as int * diff) by (nonlinear_arith)
        requires
            0 <= f <= S12 as int,
            diff >= 0,
    ;
    lemma_tdiv_between(diff * f, S12 as int, 0, diff);
}

/// Law: with a positive rate the exponential schedule reaches `vf` exactly,
/// and stays there, once `rate * t` reaches `S12`.
pub proof fn lemma_exponential_converges(d: Exponential, t: u64)
    requires
        d.wf(),
        d.rate >= 1,
        d.rate as int * t as int >= S12 as int,
    ensures
        d.spec_eval(t) == d.vf,
{
    let diff = d.vi as int - d.vf as int;
    let n = (d.rate as int * t as int) as nat;
    assert(d.rate as int * t as int >= 0) by (nonlinear_arith)
        requires
            d.rate as int >= 0,
            t as int >= 0,
    ;
    lemma_epow_zero(n);
    assert(diff * 0 == 0) by (nonlinear_arith);
}

/// Law: every well-formed schedule starts at `vi` — the inverse-time case.
pub proof fn lemma_inverse_time_at_zero(d: InverseTime)
    requires
        d.wf(),
    ensures
        d.spec_eval(0) == d.vi,
{
    let diff = d.vi as int - d.vf as int;
    assert(d.rate as int * 0 == 0) by (nonlinear_arith);
    assert(tdiv(diff * SCALE as int, SCALE as int) == diff) by {
        if diff >= 0 {
            assert(diff * SCALE as int == SCALE as int * diff) by (nonlinear_arith);
            lemma_div_multiples_vanish(diff, SCALE as int);
        } else {
            assert(-(diff * SCALE as int) == SCALE as int * (-diff)) by (nonlinear_arith);
            lemma_div_multiples_vanish(-diff, SCALE as int);
        }
    }
}

/// Law: with a positive rate the inverse-time schedule reaches `vf` exactly
/// once `rate * t` reaches `(vi - vf) * SCALE`.
pub proof fn lemma_inverse_time_converges(d: InverseTime, t: u64)
    requires
        d.wf(),
        d.rate >= 1,
        d.rate as int * t as int >= (d.vi as int - d.vf as int) * SCALE as int,
    ensures
        d.spec_eval(t) == d.vf,
{
    let diff = d.vi as int - d.vf as int;
    let denom = SCALE as int + d.rate as int * t as int;
    assert(diff * SCALE as int > 0) by (nonlinear_arith)
        requires
            diff >= 1,
    ;
    assert(denom > diff * SCALE as int);
    lemma_basic_div(diff * SCALE as int, denom);
}


/// Law: with a nonnegative rate an inverse-time schedule stays in
/// `[vf, vi]`, annealing from its initial value toward its floor.
pub proof fn lemma_inverse_time_bounded(d: InverseTime, t: u64)
    requires
        d.wf(),
        d.rate >= 0,
    ensures
        d.vf as int <= d.spec_eval(t) <= d.vi as int,
{
    let diff = d.vi as int - d.vf as int;
    let denom = SCALE as int + d.rate as int * t as int;
    assert(d.rate as int * t as int >= 0) by (nonlinear_arith)
        requires
            d.rate as int >= 0,
            t as int >= 0,
    ;
    let num = diff * SCALE as int;
    assert(num >= 0 && num <= denom * diff) by (nonlinear_arith)
        requires
            diff >= 1,
            denom >= SCALE as int,
            SCALE as int >= 1,
            num == diff * SCALE as int,
    ;
    lemma_div_pos_is_pos(num, denom);
    lemma_multiply_divide_le(num, denom, diff);
}

/// Law: every well-formed schedule starts at `vi` — the linear case, in both
/// the annealing and the growing direction.
pub proof fn lemma_linear_at_zero(d: Linear)
    requires
        d.wf(),
    ensures
        d.spec_eval(0) == d.vi,
{
    assert(d.rate as int * 0 == 0) by (nonlinear_arith);
}

/// Law: with a positive rate a linear schedule sits on the line `vi - rate*t`
/// until the floor, and on the floor `vf` exactly from `rate * t >= vi - vf`.
pub proof fn lemma_linear_floor(d: Linear, t: u64)
    requires
        d.wf(),
        d.rate >= 1,
    ensures
        d.spec_eval(t) == d.vf <==> d.rate as int * t as int >= d.vi as int - d.vf as int,
        d.rate as int * t as int <= d.vi as int - d.vf as int ==> d.spec_eval(t) == d.vi as int
            - d.rate as int * t as int,
{
}


/// Law: with a nonnegative rate an exponential schedule never grows over
/// time: its smooth approach toward `vf` is monotone.
pub proof fn lemma_exponential_monotone(d: Exponential, t1: u64, t2: u64)
    requires
        d.wf(),
        d.rate >= 0,
        t1 <= t2,
    ensures
        d.spec_eval(t2) <= d.spec_eval(t1),
{
    let diff = d.vi as int - d.vf as int;
    let n1 = (d.rate as int * t1 as int) as nat;
    let n2 = (d.rate as int * t2 as int) as nat;
    assert(0 <= d.rate as int * t1 as int <= d.rate as int * t2 as int) by (nonlinear_arith)
        requires
            d.rate as int >= 0,
            0 <= t1 as int <= t2 as int,
    ;
    lemma_epow_monotone(n1, n2);
    lemma_epow_bounds(n1);
    lemma_epow_bounds(n2);
    let f1 = epow(n1);
    let f2 = epow(n2);
    assert(0 <= diff * f2 && diff * f2 <= diff * f1) by (nonlinear_arith)
        requires
            diff >= 1,
            0 <= f2 <= f1,
    ;
    lemma_div_is_ordered(diff * f2, diff * f1, S12 as int);
    lemma_div_pos_is_pos(diff * f2, S12 as int);
}

/// Law: with a nonnegative rate an inverse-time schedule never grows over
/// time: its slower-than-exponential approach toward `vf` is monotone.
pub proof fn lemma_inverse_time_monotone(d: InverseTime, t1: u64, t2: u64)
    requires
        d.wf(),
        d.rate >= 0,
        t1 <= t2,
    ensures
        d.spec_eval(t2) <= d.spec_eval(t1),
{
    let diff = d.vi as int - d.vf as int;
    let num = diff * SCALE as int;
    let d1 = SCALE as int + d.rate as int * t1 as int;
    let d2 = SCALE as int + d.rate as int * t2 as int;
    assert(0 <= d.rate as int * t1 as int <= d.rate as int * t2 as int) by (nonlinear_arith)
        requires
            d.rate as int >= 0,
            0 <= t1 as int <= t2 as int,
    ;
    assert(num >= 0) by (nonlinear_arith)
        requires
            diff >= 1,
            SCALE as int >= 1,
            num == diff * SCALE as int,
    ;
    lemma_div_is_ordered_by_denominator(num, d1, d2);
}

/// Law: with a nonnegative rate a linear schedule never grows over time.
pub proof fn lemma_linear_monotone(d: Linear, t1: u64, t2: u64)
    requires
        d.wf(),
        d.rate >= 0,
        t1 <= t2,
    ensures
        d.spec_eval(t2) <= d.spec_eval(t1),
{
    assert(d.rate as int * t1 as int <= d.rate as int * t2 as int) by (nonlinear_arith)
        requires
            d.rate as int >= 0,
            t1 as int <= t2 as int,
    ;
}

/// Law: a step schedule changes value only at multiples of `step`: any two
/// times in the same stage see the same value.
pub proof fn lemma_step_piecewise(d: Step, t1: u64, t2: u64)
    requires
        d.wf(),
        t1 as int / d.step as int == t2 as int / d.step as int,
    ensures
        d.spec_eval(t1) == d.spec_eval(t2),
{
}

/// Law: with a nonnegative rate a step schedule starts at `vi`.
pub proof fn lemma_step_at_zero(d: Step)
    requires
        d.wf(),
        d.rate >= 0,
    ensures
        d.spec_eval(0) == d.vi,
{
    lemma_div_of0(d.step as int);
}


} // verus!
