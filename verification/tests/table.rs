use lockwatch::blocker::BlockerState;
use lockwatch::lock_mode::LockMode;
use lockwatch::natural::Natural;
use lockwatch::ratio::{Decimal, Fraction};
use lockwatch::settings::{Settings, Weights};
use lockwatch::table::{
    evict_stale, snapshot, take_alert_transitions, upsert_blocker, BlockerTable,
};

fn pids(table: &BlockerTable) -> Vec<i32> {
    snapshot(table).iter().map(|b| b.blocking_pid).collect()
}

fn capped(n: i32) -> Settings {
    Settings { max_tracked_blockers: n, ..Settings::default() }
}

/// Scores by the lock mode alone.
fn by_mode() -> Weights {
    let zero = Decimal { digits: 0, places: 0 };
    Weights {
        velocity: zero,
        duration: zero,
        lock_mode: Decimal { digits: 1, places: 0 },
        cascade_depth: zero,
    }
}

fn parts(n: u64) -> Decimal {
    Decimal { digits: n, places: 6 }
}

fn is_ratio(r: &Fraction, num: u128, den: u128) -> bool {
    let left = r.num.times(&Natural::from_u128(den));
    let right = r.den.times(&Natural::from_u128(num));
    left.at_least(&right) && right.at_least(&left)
}

#[test]
fn a_new_table_tracks_nobody() {
    assert!(snapshot(&BlockerTable::new()).is_empty());
}

#[test]
fn upsert_takes_a_fresh_slot_and_finds_it_again() {
    let mut table = BlockerTable::new();
    let settings = Settings::default();
    assert!(upsert_blocker(&mut table, 11, &settings, |b: &mut BlockerState| {
        assert!(b.in_use && b.blocking_pid == 11 && b.history_len == 0);
        b.cascade_depth = 4;
    }));
    assert!(upsert_blocker(&mut table, 12, &settings, |_: &mut BlockerState| {}));
    assert!(upsert_blocker(&mut table, 11, &settings, |b: &mut BlockerState| {
        assert_eq!(b.cascade_depth, 4);
        b.cascade_depth = 5;
    }));
    assert_eq!(pids(&table), vec![11, 12]);
    assert_eq!(snapshot(&table)[0].cascade_depth, 5);
}

#[test]
fn upsert_refuses_a_new_pid_at_the_soft_cap() {
    let mut table = BlockerTable::new();
    let settings = capped(2);
    assert!(upsert_blocker(&mut table, 1, &settings, |_: &mut BlockerState| {}));
    assert!(upsert_blocker(&mut table, 2, &settings, |_: &mut BlockerState| {}));
    assert!(!upsert_blocker(&mut table, 3, &settings, |_: &mut BlockerState| panic!("called")));
    assert!(upsert_blocker(&mut table, 2, &settings, |b: &mut BlockerState| b.cascade_depth = 1));
    assert_eq!(pids(&table), vec![1, 2]);
}

#[test]
fn upsert_refuses_a_new_pid_in_a_full_table() {
    let mut table = BlockerTable::new();
    let settings = capped(512);
    for pid in 1..=128 {
        assert!(upsert_blocker(&mut table, pid, &settings, |_: &mut BlockerState| {}));
    }
    assert!(!upsert_blocker(&mut table, 129, &settings, |_: &mut BlockerState| {}));
    assert!(upsert_blocker(&mut table, 128, &settings, |_: &mut BlockerState| {}));
    assert_eq!(snapshot(&table).len(), 128);
}

#[test]
fn eviction_frees_what_no_longer_blocks() {
    let mut table = BlockerTable::new();
    let settings = Settings::default();
    for pid in [1, 2, 3] {
        upsert_blocker(&mut table, pid, &settings, |b: &mut BlockerState| b.cascade_depth = 9);
    }
    evict_stale(&mut table, &[3, 1, 77]);
    assert_eq!(pids(&table), vec![1, 3]);
    upsert_blocker(&mut table, 4, &settings, |b: &mut BlockerState| {
        assert_eq!(b.cascade_depth, 0);
    });
    assert_eq!(pids(&table), vec![1, 4, 3]);
    evict_stale(&mut table, &[]);
    assert!(pids(&table).is_empty());
}

#[test]
fn an_alert_fires_once_per_crossing() {
    let mut table = BlockerTable::new();
    let settings = Settings::default();
    upsert_blocker(&mut table, 1, &settings, |b: &mut BlockerState| {
        b.lock_mode = LockMode::Exclusive
    });
    upsert_blocker(&mut table, 2, &settings, |b: &mut BlockerState| {
        b.lock_mode = LockMode::AccessShare
    });
    let first = take_alert_transitions(&mut table, parts(500_000), 0, &by_mode());
    assert_eq!(first.len(), 1);
    assert_eq!(first[0].0.blocking_pid, 1);
    assert!(first[0].0.alerted);
    assert!(is_ratio(&first[0].1, 8, 10));
    assert!(take_alert_transitions(&mut table, parts(500_000), 0, &by_mode()).is_empty());
    upsert_blocker(&mut table, 1, &settings, |b: &mut BlockerState| {
        b.lock_mode = LockMode::RowShare
    });
    assert!(take_alert_transitions(&mut table, parts(500_000), 0, &by_mode()).is_empty());
    assert!(!snapshot(&table)[0].alerted);
    upsert_blocker(&mut table, 1, &settings, |b: &mut BlockerState| {
        b.lock_mode = LockMode::Exclusive
    });
    assert_eq!(take_alert_transitions(&mut table, parts(500_000), 0, &by_mode()).len(), 1);
}

#[test]
fn a_score_at_the_threshold_fires() {
    let mut table = BlockerTable::new();
    upsert_blocker(&mut table, 1, &Settings::default(), |b: &mut BlockerState| {
        b.lock_mode = LockMode::Exclusive
    });
    assert!(take_alert_transitions(&mut table, parts(800_001), 0, &by_mode()).is_empty());
    assert_eq!(take_alert_transitions(&mut table, parts(800_000), 0, &by_mode()).len(), 1);
}

#[test]
fn a_threshold_of_zero_fires_for_everyone_in_slot_order() {
    let mut table = BlockerTable::new();
    for pid in [9, 4, 6] {
        upsert_blocker(&mut table, pid, &Settings::default(), |_: &mut BlockerState| {});
    }
    let alerts = take_alert_transitions(&mut table, parts(0), 0, &Weights::default());
    let fired: Vec<i32> = alerts.iter().map(|a| a.0.blocking_pid).collect();
    assert_eq!(fired, vec![9, 4, 6]);
}

#[test]
fn a_check_leaves_everything_but_the_flag() {
    let mut table = BlockerTable::new();
    let settings = Settings::default();
    upsert_blocker(&mut table, 1, &settings, |b: &mut BlockerState| {
        for w in [3, 1, 4, 1, 5] {
            b.push_waiter_count(w, &settings);
        }
    });
    let before = table;
    take_alert_transitions(&mut table, parts(0), 0, &Weights::default());
    assert!(table.slots[0].alerted);
    table.slots[0].alerted = false;
    assert_eq!(format!("{table:?}"), format!("{before:?}"));
}

#[test]
fn an_evicted_slot_is_blank() {
    let mut table = BlockerTable::new();
    let settings = Settings::default();
    upsert_blocker(&mut table, 1, &settings, |b: &mut BlockerState| {
        b.push_waiter_count(9, &settings)
    });
    evict_stale(&mut table, &[]);
    assert_eq!(format!("{table:?}"), format!("{:?}", BlockerTable::new()));
}
