use lockwatch::blocker::BlockerState;
use lockwatch::lock_mode::LockMode;
use lockwatch::natural::Natural;
use lockwatch::ratio::{Decimal, Fraction, Ratio, Rational};
use lockwatch::scoring::score;
use lockwatch::settings::{Settings, Weights};

#[test]
fn idle_blocker_scores_low() {
    let state = BlockerState {
        lock_mode: LockMode::AccessShare,
        ..Default::default()
    };
    let r = score(&state, 0, &Weights::default());
    assert!(as_f64(&r) < 0.2);
}

#[test]
fn access_exclusive_with_growing_queue_scores_high() {
    let mut state = BlockerState {
        lock_mode: LockMode::AccessExclusive,
        baseline_hold_micros: 500_000,
        cascade_depth: 2,
        ..Default::default()
    };
    for w in [0u16, 1, 2, 4, 6, 9] {
        state.push_waiter_count(w, &Settings::default());
    }
    let r = score(&state, 0, &Weights::default());
    assert!(as_f64(&r) > 0.5);
}

fn normalize(x: Ratio, half_point: Ratio) -> Fraction {
    lockwatch::scoring::normalize(&Rational::from_ratio(x), &Rational::from_ratio(half_point))
}

fn compared(r: &Fraction, num: u128, den: u128) -> (bool, bool) {
    let left = r.num.times(&Natural::from_u128(den));
    let right = Natural::from_u128(num).times(&r.den);
    (left.at_least(&right), right.at_least(&left))
}

fn same(r: Fraction, num: u128, den: u128) -> bool {
    compared(&r, num, den) == (true, true)
}

fn below(a: &Fraction, b: &Fraction) -> bool {
    !a.num.times(&b.den).at_least(&b.num.times(&a.den))
}

fn as_f64(r: &Fraction) -> f64 {
    let d = r.truncated();
    format!("{}e-{}", d.digits, d.places).parse().unwrap()
}

fn dec(digits: u64, places: u16) -> Decimal {
    Decimal { digits, places }
}

fn only(velocity: u64, duration: u64, lock_mode: u64, cascade_depth: u64) -> Weights {
    Weights {
        velocity: dec(velocity, 0),
        duration: dec(duration, 0),
        lock_mode: dec(lock_mode, 0),
        cascade_depth: dec(cascade_depth, 0),
    }
}

#[test]
fn normalize_is_one_half_at_the_half_point() {
    let r = normalize(Ratio { num: 3, den: 2 }, Ratio { num: 3, den: 2 });
    assert!(same(r, 1, 2));
}

#[test]
fn normalize_squashes_and_cuts_off_what_is_not_positive() {
    let one = Ratio { num: 1, den: 1 };
    assert!(same(normalize(Ratio { num: 9, den: 5 }, one), 9, 14));
    assert!(same(normalize(Ratio { num: -4, den: 1 }, one), 0, 1));
    assert!(same(normalize(Ratio { num: 0, den: 1 }, one), 0, 1));
}

#[test]
fn normalize_without_a_half_point_is_zero() {
    let x = Ratio { num: 5, den: 1 };
    assert!(same(normalize(x, Ratio { num: 0, den: 1 }), 0, 1));
    assert!(same(normalize(x, Ratio { num: -1, den: 1 }), 0, 1));
}

#[test]
fn normalize_keeps_the_order() {
    let one = Ratio { num: 1, den: 1 };
    let low = normalize(Ratio { num: 1, den: 1 }, one);
    let high = normalize(Ratio { num: 100, den: 1 }, one);
    assert!(below(&low, &high));
    assert!(!high.num.at_least(&high.den));
}

#[test]
fn score_of_an_idle_blocker_is_its_lock_mode_alone() {
    let r = score(&BlockerState::default(), 0, &Weights::default());
    assert!(same(r, 1, 100));
}

#[test]
fn score_adds_velocity_lock_mode_and_depth() {
    let mut state = BlockerState {
        lock_mode: LockMode::AccessExclusive,
        baseline_hold_micros: 500_000,
        cascade_depth: 2,
        ..Default::default()
    };
    for w in [0u16, 1, 2, 4, 6, 9] {
        state.push_waiter_count(w, &Settings::default());
    }
    // 0.35 * 9/14 + 0.20 * 1 + 0.15 * 2/3
    let r = score(&state, 0, &Weights::default());
    assert!(same(r, 525, 1000));
    assert!(same(state.risk_score(0, &Weights::default()), 525, 1000));
}

#[test]
fn score_measures_the_overrun_of_the_baseline() {
    let only_duration = only(0, 1, 0, 0);
    let state = BlockerState {
        lock_acquired_at: Some(0),
        baseline_hold_micros: 500_000,
        ..Default::default()
    };
    assert!(same(score(&state, 400_000, &only_duration), 0, 1));
    assert!(same(score(&state, 500_000, &only_duration), 0, 1));
    assert!(same(score(&state, 1_000_000, &only_duration), 1, 2));
    assert!(same(score(&state, 1_500_000, &only_duration), 2, 3));
}

#[test]
fn score_raises_a_cold_baseline_to_a_tenth_of_a_second() {
    let only_duration = only(0, 1, 0, 0);
    let state = BlockerState { lock_acquired_at: Some(0), ..Default::default() };
    assert!(same(score(&state, 300_000, &only_duration), 2, 3));
}

#[test]
fn score_without_weights_is_zero() {
    let none = only(0, 0, 0, 0);
    let state = BlockerState {
        lock_mode: LockMode::AccessExclusive,
        cascade_depth: 9,
        ..Default::default()
    };
    assert!(same(score(&state, 0, &none), 0, 1));
}

#[test]
fn score_divides_by_no_less_than_a_ten_thousandth() {
    let tiny = Weights { lock_mode: dec(5, 5), ..only(0, 0, 0, 0) };
    let state = BlockerState { lock_mode: LockMode::AccessExclusive, ..Default::default() };
    assert!(same(score(&state, 0, &tiny), 1, 2));
}

#[test]
fn score_stays_between_zero_and_one_at_the_extremes() {
    let full = only(1, 1, 1, 1);
    let mut state = BlockerState {
        lock_mode: LockMode::AccessExclusive,
        lock_acquired_at: Some(i64::MIN),
        cascade_depth: u16::MAX,
        ..Default::default()
    };
    state.push_waiter_count(0, &Settings::default());
    state.push_waiter_count(u16::MAX, &Settings::default());
    let r = score(&state, i64::MAX, &full);
    assert!(r.den.at_least(&r.num));
    assert!(r.at_least(&dec(99_999, 5)));
    assert!(!r.at_least(&dec(1, 0)));
}

#[test]
fn score_grows_with_each_signal() {
    let weights = Weights::default();
    let base = BlockerState {
        lock_mode: LockMode::RowExclusive,
        lock_acquired_at: Some(0),
        baseline_hold_micros: 1_000_000,
        cascade_depth: 1,
        ..Default::default()
    };
    let low = score(&base, 2_000_000, &weights);
    let deeper = score(&BlockerState { cascade_depth: 2, ..base }, 2_000_000, &weights);
    let stronger =
        score(&BlockerState { lock_mode: LockMode::Exclusive, ..base }, 2_000_000, &weights);
    let longer = score(&base, 3_000_000, &weights);
    for high in [deeper, stronger, longer] {
        assert!(below(&low, &high));
    }
}

#[test]
fn every_weight_counts_however_small_it_is() {
    let state = BlockerState { lock_mode: LockMode::AccessExclusive, ..Default::default() };
    let small = Weights { lock_mode: dec(4, 7), ..only(0, 0, 0, 0) };
    assert!(same(score(&state, 0, &small), 4, 1_000));
    let tiny = Weights { lock_mode: dec(5, 324), ..only(0, 0, 0, 0) };
    let r = score(&state, 0, &tiny);
    assert!(r.at_least(&dec(5, 320)));
    assert!(!r.at_least(&dec(51, 321)));
    assert_eq!((r.truncated().digits, r.truncated().places), (5, 320));
}

#[test]
fn weights_of_different_sizes_are_told_apart() {
    let state = BlockerState {
        lock_mode: LockMode::AccessExclusive,
        cascade_depth: 1,
        ..Default::default()
    };
    // (1e-300 * 1 + 1 * 1/2) / (1 + 1e-300)
    let weights = Weights { lock_mode: dec(1, 300), ..only(0, 0, 0, 1) };
    let r = score(&state, 0, &weights);
    assert!(!compared(&r, 1, 2).1);
    assert!(compared(&r, 1, 2).0);
}

#[test]
fn normalize_has_room_for_the_largest_fractions() {
    let big = Ratio { num: i128::MAX, den: 1 };
    let small = Ratio { num: 1, den: i128::MAX };
    let r = normalize(big, small);
    assert!(!r.num.at_least(&r.den));
    assert!(r.at_least(&dec(999_999_999_999_999_999, 18)));
    assert!(same(normalize(big, big), 1, 2));
    assert!(same(normalize(small, small), 1, 2));
    assert!(same(normalize(Ratio { num: i128::MIN, den: 1 }, small), 0, 1));
    let ten = Natural::from_u128(10);
    let huge = Rational { negative: false, num: ten.times_ten_to(307), den: Natural::from_u128(1) };
    assert!(same(lockwatch::scoring::normalize(&huge, &huge), 1, 2));
}

#[test]
fn at_least_compares_exactly() {
    let of = |num: u128, den: u128| Fraction {
        num: Natural::from_u128(num),
        den: Natural::from_u128(den),
    };
    let r = of(3, 4);
    assert!(r.at_least(&dec(75, 2)));
    assert!(!r.at_least(&dec(750_001, 6)));
    let third = of(1, 3);
    assert!(third.at_least(&dec(333_333_333_333_333_333, 18)));
    assert!(!third.at_least(&dec(333_333_333_333_333_334, 18)));
    assert!(of(u128::MAX, u128::MAX).at_least(&dec(1, 0)));
    assert!(!of(u128::MAX - 1, u128::MAX).at_least(&dec(1, 0)));
    assert!(of(0, 5).at_least(&dec(0, 0)));
}

#[test]
fn truncated_writes_out_the_digits() {
    let of = |num: u128, den: u128| {
        let d = Fraction { num: Natural::from_u128(num), den: Natural::from_u128(den) }.truncated();
        (d.digits, d.places)
    };
    assert_eq!(of(21, 40), (525, 3));
    assert_eq!(of(7, 7), (1, 0));
    assert_eq!(of(0, 9), (0, 0));
    assert_eq!(of(1, 3), (333_333_333_333_333_333, 18));
    assert_eq!(of(2, 3), (666_666_666_666_666_666, 18));
    assert_eq!(of(1, 300), (333_333_333_333_333_333, 20));
}
