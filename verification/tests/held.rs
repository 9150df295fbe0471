use lockwatch::held::{is_more_severe, most_severe_locks, note_lock, HeldLockRow};
use lockwatch::lock_mode::LockMode;
use std::collections::HashMap;

fn row(pid: i32, oid: u32, mode: &str) -> HeldLockRow {
    HeldLockRow {
        pid: Some(pid),
        relation_oid: Some(oid),
        lock_mode: Some(mode.to_string()),
        held_since: Some(10),
        blocking_query: Some("q".to_string()),
    }
}

#[test]
fn the_most_severe_lock_stands_for_its_backend() {
    let rows = [
        row(7, 100, "RowShareLock"),
        row(8, 200, "ShareLock"),
        row(7, 101, "AccessExclusiveLock"),
        row(7, 102, "RowExclusiveLock"),
    ];
    let held = most_severe_locks(&rows);
    assert_eq!(held.len(), 2);
    assert_eq!(held[&7].relation_oid, 101);
    assert_eq!(held[&7].lock_mode, LockMode::AccessExclusive);
    assert_eq!(held[&7].held_since, Some(10));
    assert_eq!(held[&7].blocking_query.as_deref(), Some("q"));
    assert_eq!(held[&8].lock_mode, LockMode::Share);
}

#[test]
fn of_equally_severe_locks_the_first_stands() {
    let rows = [row(7, 100, "ShareLock"), row(7, 101, "ShareLock")];
    assert_eq!(most_severe_locks(&rows)[&7].relation_oid, 100);
}

#[test]
fn rows_without_a_pid_count_for_nothing() {
    let rows = [
        HeldLockRow { pid: None, ..row(1, 100, "ShareLock") },
        row(0, 100, "AccessExclusiveLock"),
    ];
    assert!(most_severe_locks(&rows).is_empty());
    assert!(most_severe_locks(&[]).is_empty());
}

#[test]
fn missing_columns_take_their_defaults() {
    let rows = [HeldLockRow {
        pid: Some(5),
        relation_oid: None,
        lock_mode: None,
        held_since: None,
        blocking_query: None,
    }];
    let held = most_severe_locks(&rows);
    assert_eq!(held[&5].relation_oid, 0);
    assert_eq!(held[&5].lock_mode, LockMode::RowExclusive);
    assert_eq!(held[&5].held_since, None);
    assert_eq!(held[&5].blocking_query, None);
}

#[test]
fn rows_are_noted_one_after_the_other() {
    let mut held = HashMap::new();
    let share = row(7, 100, "ShareLock");
    assert!(is_more_severe(&held, &share));
    note_lock(&mut held, &share);
    assert!(!is_more_severe(&held, &row(7, 101, "ShareLock")));
    note_lock(&mut held, &row(7, 101, "RowShareLock"));
    assert_eq!(held[&7].relation_oid, 100);
    assert!(is_more_severe(&held, &row(7, 102, "ExclusiveLock")));
    assert!(is_more_severe(&held, &row(8, 102, "AccessShareLock")));
    note_lock(&mut held, &row(7, 102, "ExclusiveLock"));
    assert_eq!((held[&7].relation_oid, held[&7].lock_mode), (102, LockMode::Exclusive));
    assert!(!is_more_severe(&held, &row(0, 1, "AccessExclusiveLock")));
    note_lock(&mut held, &row(0, 1, "AccessExclusiveLock"));
    assert_eq!(held.len(), 1);
}

#[test]
fn a_lesser_row_needs_no_details() {
    let rows = [row(7, 100, "ExclusiveLock"), row(7, 101, "ShareLock"), row(7, 102, "ShareLock")];
    let mut held = HashMap::new();
    for r in &rows {
        let bare = HeldLockRow {
            pid: r.pid,
            relation_oid: r.relation_oid,
            lock_mode: r.lock_mode.clone(),
            held_since: None,
            blocking_query: None,
        };
        if is_more_severe(&held, &bare) {
            note_lock(&mut held, r);
        }
    }
    let all = most_severe_locks(&rows);
    assert_eq!(held.len(), all.len());
    assert_eq!(held[&7].relation_oid, all[&7].relation_oid);
    assert_eq!(held[&7].held_since, all[&7].held_since);
    assert_eq!(held[&7].blocking_query, all[&7].blocking_query);
}
