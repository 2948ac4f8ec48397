use arbitrage::weight::{Rate, Weight, RATE_SCALE};

#[test]
fn identity_is_one() {
    assert_eq!(Rate::one(), Rate::new(RATE_SCALE));
}

#[test]
fn multiplication_is_exact_fixed_point() {
    // 2.0 * 0.5 = 1.0
    let two = Rate::new(2 * RATE_SCALE);
    let half = Rate::new(RATE_SCALE / 2);
    assert_eq!(two.mul(half), Rate::one());
    // 2.0 * 0.5 * 0.9 = 0.9
    let nine_tenths = Rate::new(900_000_000);
    assert_eq!(two.mul(half).mul(nine_tenths), nine_tenths);
}

#[test]
fn multiplication_by_identity_is_neutral() {
    let r = Rate::new(123_456_789);
    assert_eq!(r.mul(Rate::one()), r);
    assert_eq!(Rate::one().mul(r), r);
}

#[test]
fn multiplication_truncates_toward_zero() {
    // (1 billionth) * (1 billionth) truncates to zero.
    let tiny = Rate::new(1);
    assert_eq!(tiny.mul(tiny), Rate::new(0));
}

#[test]
fn multiplication_saturates_at_max() {
    let max = Rate::new(u64::MAX);
    assert_eq!(max.mul(max), Rate::new(u64::MAX));
}

#[test]
fn arbitrage_signal_is_strictly_between_zero_and_identity() {
    assert!(Rate::new(900_000_000).signals_arbitrage());
    assert!(Rate::new(1).signals_arbitrage());
    assert!(!Rate::new(0).signals_arbitrage());
    assert!(!Rate::one().signals_arbitrage());
    assert!(!Rate::new(2 * RATE_SCALE).signals_arbitrage());
}

#[test]
fn order_is_by_raw_value() {
    let small = Rate::new(1);
    let large = Rate::new(2);
    assert!(small.lt(large));
    assert!(!large.lt(small));
    assert!(!small.lt(small));
}
