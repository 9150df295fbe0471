use lockwatch::blocker::BlockerState;
use lockwatch::settings::Settings;

fn window(n: i32) -> Settings {
    Settings { history_window: n, ..Settings::default() }
}

fn with_counts(counts: &[u16], settings: &Settings) -> BlockerState {
    let mut b = BlockerState::default();
    for c in counts {
        b.push_waiter_count(*c, settings);
    }
    b
}

#[test]
fn a_new_blocker_has_no_waiters_and_no_velocity() {
    let b = BlockerState::default();
    assert_eq!(b.current_waiter_count(), 0);
    assert_eq!(b.waiter_velocity().num, 0);
    assert_eq!(b.waiter_velocity().den, 1);
    assert!(!b.in_use && !b.alerted);
}

#[test]
fn one_count_is_no_velocity() {
    let b = with_counts(&[7], &Settings::default());
    assert_eq!(b.current_waiter_count(), 7);
    assert_eq!(b.waiter_velocity().num, 0);
}

#[test]
fn velocity_is_the_mean_growth() {
    let b = with_counts(&[0, 1, 2, 4, 6, 9], &Settings::default());
    assert_eq!(b.current_waiter_count(), 9);
    assert_eq!((b.waiter_velocity().num, b.waiter_velocity().den), (9, 5));
    let shrinking = with_counts(&[9, 3], &Settings::default());
    assert_eq!((shrinking.waiter_velocity().num, shrinking.waiter_velocity().den), (-6, 1));
}

#[test]
fn a_steady_queue_has_no_velocity() {
    let b = with_counts(&[5, 9, 1, 5], &Settings::default());
    assert_eq!(b.waiter_velocity().num, 0);
}

#[test]
fn the_window_drops_the_oldest_count() {
    let b = with_counts(&[100, 1, 2, 3, 5], &window(4));
    assert_eq!(b.history_len, 4);
    assert_eq!((b.waiter_velocity().num, b.waiter_velocity().den), (4, 3));
}

#[test]
fn the_ring_wraps_around() {
    let counts: Vec<u16> = (0..40).map(|i| i * i).collect();
    let b = with_counts(&counts, &window(64));
    assert_eq!(b.history_len, 16);
    assert_eq!(b.current_waiter_count(), 39 * 39);
    assert_eq!((b.waiter_velocity().num, b.waiter_velocity().den), (39 * 39 - 24 * 24, 15));
}

#[test]
fn a_window_below_one_still_keeps_the_latest() {
    let b = with_counts(&[3, 8], &window(0));
    assert_eq!(b.history_len, 1);
    assert_eq!(b.current_waiter_count(), 8);
    assert_eq!(b.waiter_velocity().num, 0);
}

#[test]
fn hold_time_is_never_negative() {
    let mut b = BlockerState::default();
    assert_eq!(b.hold_seconds(5_000_000).num, 0);
    b.lock_acquired_at = Some(2_000_000);
    assert_eq!(b.hold_seconds(3_500_000).num, 1_500_000);
    assert_eq!(b.hold_seconds(3_500_000).den, 1_000_000);
    assert_eq!(b.hold_seconds(1_000_000).num, 0);
    b.lock_acquired_at = Some(i64::MIN);
    assert_eq!(b.hold_seconds(i64::MAX).num, u64::MAX as i128);
}

#[test]
fn a_count_is_written_at_the_head_and_nowhere_else() {
    let settings = window(4);
    let mut b = with_counts(&[], &settings);
    assert_eq!((b.history_head, b.history_len, b.waiter_history), (0, 0, [0; 16]));
    for n in 0..40usize {
        let before = b;
        b.push_waiter_count(100 + n as u16, &settings);
        let mut cells = before.waiter_history;
        cells[n % 16] = 100 + n as u16;
        assert_eq!(b.waiter_history, cells);
        assert_eq!(b.history_head, (n + 1) % 16);
        assert_eq!(b.history_len, (n + 1).min(4));
        for k in 0..b.history_len {
            let at = (b.history_head + 15 - k) % 16;
            assert_eq!(b.waiter_history[at] as usize, 100 + n - k);
        }
    }
}
