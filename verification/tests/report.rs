use lockwatch::blocker::BlockerState;
use lockwatch::lock_mode::LockMode;
use lockwatch::report::{alert_payload, lockwatch_current_state};
use lockwatch::ratio::Decimal;
use lockwatch::settings::{Settings, Weights};
use lockwatch::table::{upsert_blocker, BlockerTable};

fn add(table: &mut BlockerTable, pid: i32, since: Option<i64>, oid: u32) {
    let settings = Settings::default();
    upsert_blocker(table, pid, &settings, |b: &mut BlockerState| {
        b.lock_acquired_at = since;
        b.relation_oid = oid;
        b.lock_mode = LockMode::AccessExclusive;
        b.query_fingerprint = -5;
        b.cascade_depth = 3;
        b.push_waiter_count(6, &settings);
    });
}

#[test]
fn an_empty_table_shows_no_rows() {
    assert!(lockwatch_current_state(&BlockerTable::new(), 0, &Weights::default()).is_empty());
}

#[test]
fn a_row_shows_the_blocker() {
    let mut table = BlockerTable::new();
    add(&mut table, 42, Some(7), 16_384);
    let zero = Decimal { digits: 0, places: 0 };
    let by_mode = Weights {
        velocity: zero,
        duration: zero,
        lock_mode: Decimal { digits: 1, places: 0 },
        cascade_depth: zero,
    };
    let rows = lockwatch_current_state(&table, 7, &by_mode);
    assert_eq!(rows.len(), 1);
    assert_eq!(rows[0].blocking_pid, 42);
    assert_eq!(rows[0].waiter_count, 6);
    assert!(rows[0].risk_score.at_least(&Decimal { digits: 1, places: 0 }));
    assert_eq!(rows[0].relation_oid, Some(16_384));
    assert_eq!(rows[0].held_since, Some(7));
    assert_eq!(rows[0].query_fingerprint, -5);
    assert_eq!(rows[0].cascade_depth, 3);
}

#[test]
fn without_a_relation_none_is_shown() {
    let mut table = BlockerTable::new();
    add(&mut table, 42, None, 0);
    let rows = lockwatch_current_state(&table, 7, &Weights::default());
    assert_eq!(rows[0].relation_oid, None);
    assert_eq!(rows[0].held_since, None);
}

#[test]
fn rows_come_freshest_first() {
    let mut table = BlockerTable::new();
    add(&mut table, 1, Some(10), 1);
    add(&mut table, 2, None, 1);
    add(&mut table, 3, Some(30), 1);
    add(&mut table, 4, Some(20), 1);
    add(&mut table, 5, Some(30), 1);
    add(&mut table, 6, None, 1);
    let rows = lockwatch_current_state(&table, 100, &Weights::default());
    let pids: Vec<i32> = rows.iter().map(|r| r.blocking_pid).collect();
    assert_eq!(pids, vec![3, 5, 4, 1, 2, 6]);
}

#[test]
fn an_alert_is_a_json_object() {
    let mut b = BlockerState { blocking_pid: 4711, query_fingerprint: -98, ..Default::default() };
    b.push_waiter_count(12, &Settings::default());
    assert_eq!(
        alert_payload(&b, "0.525").as_deref(),
        Some(r#"{"blocking_pid":4711,"query_fingerprint":-98,"risk_score":0.525,"waiter_count":12}"#)
    );
}

#[test]
fn an_alert_writes_the_extremes() {
    let b = BlockerState {
        blocking_pid: i32::MIN,
        query_fingerprint: i64::MIN,
        ..Default::default()
    };
    assert_eq!(
        alert_payload(&b, "1.0").as_deref(),
        Some(
            "{\"blocking_pid\":-2147483648,\"query_fingerprint\":-9223372036854775808,\
             \"risk_score\":1.0,\"waiter_count\":0}"
        )
    );
}

#[test]
fn an_alert_rewrites_the_score() {
    let b = BlockerState::default();
    assert_eq!(
        alert_payload(&b, " 7.50e-1 ").as_deref(),
        Some(r#"{"blocking_pid":0,"query_fingerprint":0,"risk_score":0.75,"waiter_count":0}"#)
    );
}

#[test]
fn an_alert_reads_back_as_the_same_score() {
    let b = BlockerState { blocking_pid: 1, query_fingerprint: i64::MAX, ..Default::default() };
    for score in [0.0f64, 0.1 + 0.2, 2.0 / 3.0, 0.750000001, 1.0] {
        let text = alert_payload(&b, &format!("{score:?}")).unwrap();
        let value: serde_json::Value = serde_json::from_str(&text).unwrap();
        assert_eq!(value["risk_score"].as_f64(), Some(score));
        assert_eq!(value["query_fingerprint"].as_i64(), Some(i64::MAX));
    }
}

#[test]
fn an_alert_needs_a_json_score() {
    for bad in ["", "NaN", "inf", "0.5,", "1.", "{"] {
        assert_eq!(alert_payload(&BlockerState::default(), bad), None);
    }
}
