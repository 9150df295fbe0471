use lockwatch::lock_mode::LockMode;

const MODES: [(&str, LockMode, i128); 8] = [
    ("AccessShareLock", LockMode::AccessShare, 5),
    ("RowShareLock", LockMode::RowShare, 10),
    ("RowExclusiveLock", LockMode::RowExclusive, 25),
    ("ShareUpdateExclusiveLock", LockMode::ShareUpdateExclusive, 40),
    ("ShareLock", LockMode::Share, 45),
    ("ShareRowExclusiveLock", LockMode::ShareRowExclusive, 65),
    ("ExclusiveLock", LockMode::Exclusive, 80),
    ("AccessExclusiveLock", LockMode::AccessExclusive, 100),
];

#[test]
fn every_mode_is_found_by_its_name() {
    for (name, mode, _) in MODES {
        assert_eq!(LockMode::from_pg_str(name), mode);
    }
}

#[test]
fn an_unknown_name_counts_as_row_exclusive() {
    for name in ["", "SIReadLock", "accessexclusivelock", "AccessExclusiveLock "] {
        assert_eq!(LockMode::from_pg_str(name), LockMode::RowExclusive);
    }
}

#[test]
fn severities_are_exact_and_grow_with_the_mode() {
    let mut last: i128 = 0;
    for (_, mode, percent) in MODES {
        assert_eq!(mode.severity().num, percent);
        assert_eq!(mode.severity().den, 100);
        assert!(percent > last);
        last = percent;
    }
}
