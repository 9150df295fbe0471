use lockwatch::blocker::BlockerState;
use lockwatch::fingerprint::fingerprint_query;
use lockwatch::held::{most_severe_locks, HeldLockRow};
use lockwatch::lock_mode::LockMode;
use lockwatch::natural::Natural;
use lockwatch::ratio::{Decimal, Fraction};
use lockwatch::settings::Settings;
use lockwatch::table::{snapshot, BlockerTable};
use lockwatch::wait_graph::{RootBlocker, WaitGraph, WaitRow};
use lockwatch::worker::{
    analyze, check_thresholds, next_action, record_root, record_roots, sample_and_analyze,
    SampleReport, WorkerAction,
};

const SECOND: i64 = 1_000_000;

fn wait(pid: i32, blockers: &[i32]) -> WaitRow {
    WaitRow { pid: Some(pid), blockers: Some(blockers.to_vec()) }
}

fn lock(pid: i32, mode: &str, since: i64, query: &str) -> HeldLockRow {
    HeldLockRow {
        pid: Some(pid),
        relation_oid: Some(1000 + pid as u32),
        lock_mode: Some(mode.to_string()),
        held_since: Some(since),
        blocking_query: Some(query.to_string()),
    }
}

fn parts(n: u64) -> Decimal {
    Decimal { digits: n, places: 6 }
}

fn is_ratio(r: &Fraction, num: u128, den: u128) -> bool {
    let left = r.num.times(&Natural::from_u128(den));
    let right = r.den.times(&Natural::from_u128(num));
    left.at_least(&right) && right.at_least(&left)
}

fn root(pid: i32, waiter_count: u16, cascade_depth: u16) -> RootBlocker {
    RootBlocker { pid, waiter_count, cascade_depth }
}

fn tracked_pids(table: &BlockerTable) -> Vec<i32> {
    let mut pids: Vec<i32> = snapshot(table).iter().map(|b| b.blocking_pid).collect();
    pids.sort();
    pids
}

fn only(table: &BlockerTable) -> BlockerState {
    let all = snapshot(table);
    assert_eq!(all.len(), 1);
    all[0]
}

fn alert_pids(report: &SampleReport) -> Vec<i32> {
    report.alerts.iter().map(|a| a.0.blocking_pid).collect()
}

#[test]
fn a_sample_describes_the_root_blocker() {
    let mut table = BlockerTable::new();
    let held = [
        lock(1, "RowExclusiveLock", SECOND, "UPDATE t"),
        lock(2, "AccessExclusiveLock", 2 * SECOND, "ALTER TABLE t"),
    ];
    let waits = [wait(2, &[1]), wait(3, &[2])];
    let report =
        sample_and_analyze(&mut table, &held, &waits, 5 * SECOND, &Settings::default());
    assert!(report.dropped.is_empty());
    assert!(report.alerts.is_empty());
    let b = only(&table);
    assert_eq!(b.blocking_pid, 1);
    assert_eq!(b.relation_oid, 1001);
    assert_eq!(b.lock_mode, LockMode::RowExclusive);
    assert_eq!(b.lock_acquired_at, Some(SECOND));
    assert_eq!(b.query_fingerprint, fingerprint_query("UPDATE t"));
    assert_eq!(b.current_waiter_count(), 2);
    assert_eq!(b.cascade_depth, 1);
    assert_eq!(b.baseline_hold_micros, 4_000_000);
}

#[test]
fn the_baseline_is_seeded_once_and_not_below_a_tenth_of_a_second() {
    let mut table = BlockerTable::new();
    let settings = Settings::default();
    let waits = [wait(2, &[1])];
    let at_first = [lock(1, "ShareLock", SECOND, "q")];
    sample_and_analyze(&mut table, &at_first, &waits, SECOND + 5, &settings);
    assert_eq!(only(&table).baseline_hold_micros, 100_000);
    let later = [lock(1, "ExclusiveLock", 3 * SECOND, "r")];
    sample_and_analyze(&mut table, &later, &waits, 9 * SECOND, &settings);
    let b = only(&table);
    assert_eq!(b.lock_acquired_at, Some(SECOND));
    assert_eq!(b.baseline_hold_micros, 100_000);
    assert_eq!(b.lock_mode, LockMode::Exclusive);
    assert_eq!(b.query_fingerprint, fingerprint_query("r"));
    assert_eq!(b.history_len, 2);
}

#[test]
fn a_long_running_query_is_no_outlier_at_first_sight() {
    let mut table = BlockerTable::new();
    let held = [lock(1, "AccessShareLock", 0, "q")];
    sample_and_analyze(&mut table, &held, &[wait(2, &[1])], 3600 * SECOND, &Settings::default());
    let r = only(&table).risk_score(3600 * SECOND, &Settings::default().weights);
    assert!(is_ratio(&r, 1, 100));
}

#[test]
fn a_root_without_a_known_lock_is_tracked_as_it_is() {
    let mut table = BlockerTable::new();
    sample_and_analyze(&mut table, &[], &[wait(2, &[1])], SECOND, &Settings::default());
    let b = only(&table);
    assert_eq!(b.lock_mode, LockMode::AccessShare);
    assert_eq!(b.lock_acquired_at, None);
    assert_eq!(b.query_fingerprint, 0);
    assert_eq!(b.baseline_hold_micros, 0);
    assert_eq!(b.current_waiter_count(), 1);
}

#[test]
fn a_lock_without_a_query_has_no_fingerprint() {
    let mut table = BlockerTable::new();
    let held = [HeldLockRow { blocking_query: None, ..lock(1, "ShareLock", 0, "") }];
    sample_and_analyze(&mut table, &held, &[wait(2, &[1])], SECOND, &Settings::default());
    assert_eq!(only(&table).query_fingerprint, 0);
}

#[test]
fn a_sample_tracks_the_roots_and_forgets_the_rest() {
    let mut table = BlockerTable::new();
    let settings = Settings::default();
    sample_and_analyze(&mut table, &[], &[wait(2, &[1]), wait(4, &[3])], 0, &settings);
    assert_eq!(tracked_pids(&table), vec![1, 3]);
    sample_and_analyze(&mut table, &[], &[wait(4, &[3]), wait(3, &[5])], 0, &settings);
    assert_eq!(tracked_pids(&table), vec![5]);
    sample_and_analyze(&mut table, &[], &[], 0, &settings);
    assert!(tracked_pids(&table).is_empty());
}

#[test]
fn a_full_table_drops_new_roots_only() {
    let mut table = BlockerTable::new();
    let settings = Settings { max_tracked_blockers: 1, ..Settings::default() };
    sample_and_analyze(&mut table, &[], &[wait(2, &[1])], 0, &settings);
    let report =
        sample_and_analyze(&mut table, &[], &[wait(2, &[1]), wait(4, &[3])], 0, &settings);
    assert_eq!(report.dropped, vec![3]);
    assert_eq!(tracked_pids(&table), vec![1]);
}

#[test]
fn a_stale_blocker_still_holds_its_slot_while_roots_are_recorded() {
    let mut table = BlockerTable::new();
    let settings = Settings { max_tracked_blockers: 1, ..Settings::default() };
    sample_and_analyze(&mut table, &[], &[wait(2, &[1])], 0, &settings);
    let report = sample_and_analyze(&mut table, &[], &[wait(4, &[3])], 0, &settings);
    assert_eq!(report.dropped, vec![3]);
    assert!(tracked_pids(&table).is_empty());
    let report = sample_and_analyze(&mut table, &[], &[wait(4, &[3])], 0, &settings);
    assert!(report.dropped.is_empty());
    assert_eq!(tracked_pids(&table), vec![3]);
}

#[test]
fn a_hot_blocker_is_reported_once_and_again_after_it_cooled_down() {
    let mut table = BlockerTable::new();
    let settings = Settings { risk_threshold: parts(300_000), ..Settings::default() };
    let strong = [lock(1, "AccessExclusiveLock", 0, "q")];
    let weak = [lock(1, "AccessShareLock", 0, "q")];
    let deep = [wait(2, &[1]), wait(3, &[2]), wait(4, &[3])];
    let flat = [wait(2, &[1]), wait(3, &[1]), wait(4, &[1])];
    // 0.20 * 1 + 0.15 * 2/3 = 0.30
    let report = sample_and_analyze(&mut table, &strong, &deep, SECOND, &settings);
    assert_eq!(alert_pids(&report), vec![1]);
    assert!(is_ratio(&report.alerts[0].1, 3, 10));
    let report = sample_and_analyze(&mut table, &strong, &deep, SECOND, &settings);
    assert!(report.alerts.is_empty());
    let report = sample_and_analyze(&mut table, &weak, &flat, SECOND, &settings);
    assert!(report.alerts.is_empty());
    assert!(!only(&table).alerted);
    let report = sample_and_analyze(&mut table, &strong, &deep, SECOND, &settings);
    assert_eq!(alert_pids(&report), vec![1]);
}

#[test]
fn a_blocker_that_left_and_came_back_is_reported_again() {
    let mut table = BlockerTable::new();
    let settings = Settings { risk_threshold: parts(0), ..Settings::default() };
    let waits = [wait(2, &[1])];
    assert_eq!(alert_pids(&sample_and_analyze(&mut table, &[], &waits, 0, &settings)), vec![1]);
    assert!(sample_and_analyze(&mut table, &[], &[], 0, &settings).alerts.is_empty());
    assert_eq!(alert_pids(&sample_and_analyze(&mut table, &[], &waits, 0, &settings)), vec![1]);
}

#[test]
fn analyze_records_in_the_given_order() {
    let mut table = BlockerTable::new();
    let settings = Settings { max_tracked_blockers: 2, ..Settings::default() };
    let roots = [root(5, 1, 0), root(4, 2, 1), root(3, 3, 2)];
    let report = analyze(&mut table, &roots, &most_severe_locks(&[]), 0, &settings);
    assert_eq!(report.dropped, vec![3]);
    let order: Vec<i32> = snapshot(&table).iter().map(|b| b.blocking_pid).collect();
    assert_eq!(order, vec![5, 4]);
    assert_eq!(snapshot(&table)[1].current_waiter_count(), 2);
    assert_eq!(snapshot(&table)[1].cascade_depth, 1);
}

#[test]
fn recording_says_whether_there_was_room() {
    let mut table = BlockerTable::new();
    let settings = Settings { max_tracked_blockers: 1, ..Settings::default() };
    let held = most_severe_locks(&[lock(1, "ShareLock", 0, "q")]);
    assert!(record_root(&mut table, &root(1, 1, 0), &held, SECOND, &settings));
    assert!(!record_root(&mut table, &root(2, 1, 0), &held, SECOND, &settings));
    assert!(record_root(&mut table, &root(1, 4, 0), &held, SECOND, &settings));
    assert_eq!(only(&table).current_waiter_count(), 4);
    let dropped = record_roots(&mut table, &[root(2, 1, 0), root(1, 5, 0)], &held, 0, &settings);
    assert_eq!(dropped, vec![2]);
    assert_eq!(only(&table).current_waiter_count(), 5);
}

#[test]
fn the_threshold_of_the_settings_is_checked() {
    let mut table = BlockerTable::new();
    let settings = Settings { risk_threshold: parts(10_000), ..Settings::default() };
    record_root(&mut table, &root(1, 1, 0), &most_severe_locks(&[]), 0, &settings);
    let above = Settings { risk_threshold: parts(10_001), ..settings };
    assert!(check_thresholds(&mut table, 0, &above).is_empty());
    assert_eq!(check_thresholds(&mut table, 0, &settings).len(), 1);
    assert!(check_thresholds(&mut table, 0, &settings).is_empty());
}

#[test]
fn the_worker_stops_reloads_or_samples() {
    assert_eq!(next_action(true, false, false), WorkerAction::Sample);
    assert_eq!(next_action(true, false, true), WorkerAction::ReloadAndSample);
    assert_eq!(next_action(true, true, true), WorkerAction::Stop);
    assert_eq!(next_action(true, true, false), WorkerAction::Stop);
    assert_eq!(next_action(false, false, true), WorkerAction::Stop);
}

#[test]
fn a_root_seen_again_keeps_its_slot_and_gains_a_count() {
    let mut table = BlockerTable::new();
    let settings = Settings::default();
    let held = most_severe_locks(&[lock(1, "ShareLock", 0, "q")]);
    analyze(&mut table, &[root(5, 1, 0), root(1, 2, 0)], &held, SECOND, &settings);
    analyze(&mut table, &[root(1, 7, 3), root(6, 1, 0)], &held, 9 * SECOND, &settings);
    let b = table.slots[1];
    assert_eq!((b.blocking_pid, b.history_len, b.history_head), (1, 2, 2));
    assert_eq!((b.waiter_history[0], b.waiter_history[1]), (2, 7));
    assert_eq!((b.current_waiter_count(), b.cascade_depth), (7, 3));
    assert_eq!((b.lock_acquired_at, b.baseline_hold_micros), (Some(0), 1_000_000));
}

#[test]
fn a_sample_leaves_the_slots_that_it_does_not_concern() {
    let mut table = BlockerTable::new();
    let settings = Settings { risk_threshold: parts(0), ..Settings::default() };
    sample_and_analyze(&mut table, &[], &[wait(2, &[1])], 0, &settings);
    let report = sample_and_analyze(&mut table, &[], &[wait(2, &[1]), wait(4, &[3])], 0, &settings);
    assert_eq!((table.slots[0].blocking_pid, table.slots[0].history_head), (1, 2));
    assert_eq!((table.slots[1].blocking_pid, table.slots[1].history_head), (3, 1));
    assert_eq!(table.slots[1].waiter_history[0], 1);
    assert_eq!(format!("{:?}", report.alerts[0].0), format!("{:?}", table.slots[1]));
    sample_and_analyze(&mut table, &[], &[wait(4, &[3])], 0, &settings);
    let blank = BlockerState::default();
    assert_eq!(format!("{:?}", table.slots[0]), format!("{blank:?}"));
    assert_eq!(format!("{:?}", table.slots[2]), format!("{blank:?}"));
    assert_eq!(table.slots[1].history_head, 2);
}

#[test]
fn the_parts_of_a_sample_give_what_the_whole_gives() {
    let settings = Settings { risk_threshold: parts(0), ..Settings::default() };
    let held_rows = [lock(1, "RowShareLock", 0, "q"), lock(1, "ShareLock", 5, "r")];
    let wait_rows = [wait(2, &[1]), wait(3, &[2])];
    let mut whole = BlockerTable::new();
    sample_and_analyze(&mut whole, &held_rows, &wait_rows, SECOND, &settings);
    let mut in_parts = BlockerTable::new();
    let held = most_severe_locks(&held_rows);
    let roots = WaitGraph::from_rows(&wait_rows).root_blockers();
    analyze(&mut in_parts, &roots, &held, SECOND, &settings);
    assert_eq!(format!("{whole:?}"), format!("{in_parts:?}"));
}
