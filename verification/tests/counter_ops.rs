use persistent_counter::counter::{ArithmeticBoundsViolation, Counter};

#[test]
fn increment() {
    // instantiate a contract variable with the counter at zero
    let mut contract = Counter::default();
    contract.increment();
    assert_eq!(1, contract.get_num());
}

#[test]
fn decrement() {
    let mut contract = Counter::default();
    contract.decrement();
    assert_eq!(-1, contract.get_num());
}

#[test]
fn increment_and_reset() {
    let mut contract = Counter::default();
    contract.increment();
    contract.reset();
    assert_eq!(0, contract.get_num());
}

#[test]
fn try_increment_at_max_fails_and_keeps_value() {
    let mut contract = Counter::from_parts(127, Vec::new(), Vec::new()).unwrap();
    let r = contract.try_increment();
    assert_eq!(r, Err(ArithmeticBoundsViolation));
    assert_eq!(127, contract.get_num());
}

#[test]
fn try_decrement_at_min_fails_and_keeps_value() {
    let mut contract = Counter::from_parts(-128, Vec::new(), Vec::new()).unwrap();
    let r = contract.try_decrement();
    assert_eq!(r, Err(ArithmeticBoundsViolation));
    assert_eq!(-128, contract.get_num());
}

#[test]
fn try_steps_track_signed_sum() {
    let mut contract = Counter::default();
    assert_eq!(Ok(()), contract.try_increment());
    assert_eq!(Ok(()), contract.try_increment());
    assert_eq!(Ok(()), contract.try_decrement());
    assert_eq!(Ok(()), contract.try_increment());
    assert_eq!(2, contract.get_num());
}

#[test]
fn increment_walks_to_max() {
    let mut contract = Counter::default();
    for _ in 0..127 {
        contract.increment();
    }
    assert_eq!(127, contract.get_num());
    assert_eq!(Err(ArithmeticBoundsViolation), contract.try_increment());
}

#[test]
fn reset_is_idempotent() {
    let mut contract = Counter::from_parts(-77, Vec::new(), Vec::new()).unwrap();
    contract.reset();
    assert_eq!(0, contract.get_num());
    contract.reset();
    assert_eq!(0, contract.get_num());
}
