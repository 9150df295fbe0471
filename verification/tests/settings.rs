use lockwatch::notation::parse_setting;
use lockwatch::ratio::Decimal;
use lockwatch::settings::{worker_database, Settings, Weights, HISTORY_LEN, MAX_BLOCKERS};

#[test]
fn defaults() {
    let s = Settings::default();
    assert_eq!(s.sample_interval_ms, 100);
    assert_eq!(s.risk_threshold, Decimal { digits: 75, places: 2 });
    assert_eq!(s.max_tracked_blockers, 64);
    assert_eq!(s.history_window, 8);
    assert_eq!(
        s.weights,
        Weights {
            velocity: Decimal { digits: 35, places: 2 },
            duration: Decimal { digits: 30, places: 2 },
            lock_mode: Decimal { digits: 20, places: 2 },
            cascade_depth: Decimal { digits: 15, places: 2 },
        }
    );
}

#[test]
fn caps_are_clamped_to_the_capacity() {
    for (asked, got) in [(-5, 1), (0, 1), (1, 1), (64, 64), (128, 128), (129, 128), (512, 128)] {
        let s = Settings { max_tracked_blockers: asked, ..Settings::default() };
        assert_eq!(s.effective_max_tracked_blockers(), got);
    }
    for (asked, got) in [(i32::MIN, 1), (0, 1), (4, 4), (16, 16), (17, 16), (i32::MAX, 16)] {
        let s = Settings { history_window: asked, ..Settings::default() };
        assert_eq!(s.effective_history_window(), got);
    }
    assert_eq!(MAX_BLOCKERS, 128);
    assert_eq!(HISTORY_LEN, 16);
}

#[test]
fn the_worker_never_sleeps_less_than_ten_milliseconds() {
    for (asked, got) in [(-1, 10), (0, 10), (9, 10), (10, 10), (11, 11), (10_000, 10_000)] {
        let s = Settings { sample_interval_ms: asked, ..Settings::default() };
        assert_eq!(s.latch_timeout_ms(), got);
    }
}

#[test]
fn the_worker_database_defaults_to_postgres() {
    assert_eq!(worker_database(None), "postgres");
    assert_eq!(worker_database(Some("orders".to_string())), "orders");
    assert_eq!(worker_database(Some(String::new())), "");
}

fn parsed(text: &str) -> Option<(u64, u16)> {
    parse_setting(text.as_bytes()).map(|d| (d.digits, d.places))
}

#[test]
fn settings_are_read_in_scientific_notation() {
    assert_eq!(parsed("3.5e-1"), Some((35, 2)));
    assert_eq!(parsed("1e0"), Some((1, 0)));
    assert_eq!(parsed("0e0"), Some((0, 0)));
    assert_eq!(parsed("4e-7"), Some((4, 7)));
    assert_eq!(parsed("5e-324"), Some((5, 324)));
    assert_eq!(parsed("12.50e-2"), Some((1250, 4)));
}

#[test]
fn every_double_between_zero_and_one_can_be_read() {
    for x in [0.0, 0.1, 0.35, 0.75, 1.0 / 3.0, 0.0000004, 1e-300, 5e-324, 0.9999999999999999, 1.0] {
        let d = parse_setting(format!("{x:e}").as_bytes()).unwrap();
        let back: f64 = format!("{}e-{}", d.digits, d.places).parse().unwrap();
        assert_eq!(back, x);
    }
}

#[test]
fn what_is_no_setting_is_refused() {
    for text in [
        "", "e", "1", "0.5", "1.e-1", ".5e0", "-1e-1", "1e", "1e-", "1e--1", "1e-1 ", " 1e-1",
        "1E-1", "1.5.5e-9", "inf", "NaN", "2e0", "1.1e0", "1e1", "11e-1", "1e-65536",
        "1e-99999999999999999999", "99999999999999999999e-30",
    ] {
        assert_eq!(parsed(text), None, "{text}");
    }
    assert_eq!(parsed("1e-65535"), Some((1, 65535)));
    assert_eq!(parsed("0e-70000"), Some((0, 0)));
    assert_eq!(parsed("10e-1"), Some((10, 1)));
}

#[test]
fn a_number_with_an_exponent_is_kept_within_one() {
    assert_eq!(Decimal::from_scientific(18_446_744_073_709_551_615, -20).is_some(), true);
    assert_eq!(Decimal::from_scientific(18_446_744_073_709_551_615, -19), None);
    assert_eq!(Decimal::from_scientific(0, 7), Some(Decimal { digits: 0, places: 0 }));
    assert_eq!(Decimal::from_scientific(1, 1), None);
}
