use qlearn::decay::{Constant, Decay, Exponential, InverseTime, Linear, Step};

// One whole unit of the fixed-point representation.
const ONE: i64 = 1_000_000;

#[test]
fn constant_returns_value_for_all_t() {
    let d = Constant::new(300_000);
    assert_eq!(d.evaluate(0), 300_000);
    assert_eq!(d.evaluate(1), 300_000);
    assert_eq!(d.evaluate(1_000_000), 300_000);
}

#[test]
fn exponential_starts_at_vi() {
    let d = Exponential::new(ONE, ONE, 0).unwrap();
    assert_eq!(d.evaluate(0), ONE);
    let d2 = Exponential::new(-ONE, 100_000, 900_000).unwrap();
    assert_eq!(d2.evaluate(0), 100_000);
}

#[test]
fn exponential_decreases_toward_vf() {
    let d = Exponential::new(ONE, ONE, 0).unwrap();
    let v1 = d.evaluate(1);
    // e^(-1) ~ 0.367879; the truncated chain lands within one unit of it
    assert_eq!(v1, 367_878);
    let v2 = d.evaluate(2);
    // e^(-2) ~ 0.135335
    assert_eq!(v2, 135_334);
    assert!(v2 < v1);
}

#[test]
fn exponential_negative_rate_moves_away_from_vf() {
    // vf + (vi - vf) * e^(|rate| * t) with vi < vf: 1 - e^1 ~ -1.718281
    let d = Exponential::new(-ONE, 0, ONE).unwrap();
    assert_eq!(d.evaluate(0), 0);
    assert_eq!(d.evaluate(1), -1_718_285);
}

#[test]
fn exponential_converges_to_vf() {
    let d = Exponential::new(20 * ONE, ONE, 250).unwrap();
    // once rate * t reaches the internal scale the factor is exactly zero
    assert_eq!(d.evaluate(50_000), 250);
}

#[test]
fn inverse_time_starts_at_vi_and_halves() {
    let d = InverseTime::new(ONE, ONE, 0).unwrap();
    assert_eq!(d.evaluate(0), ONE);
    // vf + (vi - vf) / (1 + 1.0 * 1) = 1 / 2
    assert_eq!(d.evaluate(1), 500_000);
    // 1 / (1 + 3)
    assert_eq!(d.evaluate(3), 250_000);
}

#[test]
fn inverse_time_approaches_vf() {
    let d = InverseTime::new(ONE, ONE, 200).unwrap();
    // denominator exceeds (vi - vf) * SCALE: the remainder truncates to zero
    assert_eq!(d.evaluate(2_000_000_000_000), 200);
}

#[test]
fn inverse_time_negative_rate_passes_its_pole() {
    // vf + (vi - vf) / (1 + rate * t) with rate = -1: the denominator hits
    // zero at t = 1, where the value saturates, and flips sign past it
    let d = InverseTime::new(-ONE, 0, ONE).unwrap();
    assert_eq!(d.evaluate(0), 0);
    assert_eq!(d.evaluate(1), i64::MIN);
    assert_eq!(d.evaluate(2), 2_000_000);
}

#[test]
fn linear_reaches_floor_exactly() {
    // rate 0.1 per episode, from 1.0 down to 0: floor hit at t = 10
    let d = Linear::new(100_000, ONE, 0).unwrap();
    assert_eq!(d.evaluate(0), ONE);
    assert_eq!(d.evaluate(5), 500_000);
    assert_eq!(d.evaluate(10), 0);
    assert_eq!(d.evaluate(11), 0);
}

#[test]
fn linear_negative_rate_grows_to_ceiling() {
    // negative rate: the value grows from vi and clamps at the ceiling vf
    let d = Linear::new(-100_000, 0, ONE).unwrap();
    assert_eq!(d.evaluate(0), 0);
    assert_eq!(d.evaluate(5), 500_000);
    assert_eq!(d.evaluate(10), ONE);
    assert_eq!(d.evaluate(20), ONE);
}

#[test]
fn step_changes_only_at_multiples_of_step() {
    // vi * 0.5^floor(t/10), floored at 0.1
    let d = Step::new(500_000, ONE, 100_000, 10).unwrap();
    assert_eq!(d.evaluate(0), ONE);
    assert_eq!(d.evaluate(9), ONE);
    assert_eq!(d.evaluate(10), 500_000);
    assert_eq!(d.evaluate(19), 500_000);
    assert_eq!(d.evaluate(20), 250_000);
    assert_eq!(d.evaluate(30), 125_000);
    // 62_500 would fall below the floor
    assert_eq!(d.evaluate(40), 100_000);
    assert_eq!(d.evaluate(4000), 100_000);
}

#[test]
fn mismatched_signs_fail_construction() {
    // positive rate with a growing value
    assert!(Exponential::new(ONE, 0, ONE).is_err());
    assert!(InverseTime::new(ONE, 0, ONE).is_err());
    assert!(Linear::new(ONE, 0, ONE).is_err());
    assert!(Step::new(ONE, 0, ONE, 10).is_err());
    // negative rate with a shrinking value
    assert!(Exponential::new(-ONE, ONE, 0).is_err());
    assert!(InverseTime::new(-ONE, ONE, 0).is_err());
    assert!(Linear::new(-ONE, ONE, 0).is_err());
    assert!(Step::new(-ONE, ONE, 0, 10).is_err());
    // equal endpoints match no rate
    assert!(Exponential::new(ONE, ONE, ONE).is_err());
    assert!(Exponential::new(-ONE, ONE, ONE).is_err());
}

#[test]
fn matched_signs_construct() {
    assert!(Exponential::new(ONE, ONE, 0).is_ok());
    assert!(InverseTime::new(ONE, ONE, 0).is_ok());
    assert!(Linear::new(ONE, ONE, 0).is_ok());
    assert!(Step::new(500_000, ONE, 0, 10).is_ok());
    assert!(Exponential::new(-ONE, 0, ONE).is_ok());
    // a zero rate counts with the annealing direction
    assert!(Exponential::new(0, ONE, 0).is_ok());
    assert!(Exponential::new(0, 0, ONE).is_err());
}

#[test]
fn validation_error_message() {
    match Exponential::new(ONE, 0, ONE) {
        Err(e) => assert_eq!(e.as_str(), "`vi - vf` must have same sign as `rate`"),
        Ok(_) => panic!("construction must fail"),
    }
}

#[test]
fn step_rejects_zero_step() {
    assert!(Step::new(500_000, ONE, 0, 0).is_err());
}
