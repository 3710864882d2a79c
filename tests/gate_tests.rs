use catalog_mirror::staleness::{db_data_is_stale, should_refresh, REFRESH_TTL};
use catalog_mirror::{GitHubQueryState, StalenessState};

const HOUR: i64 = 3_600_000_000;

#[test]
fn ttl_boundary() {
    assert_eq!(REFRESH_TTL, HOUR);
    assert!(should_refresh(0, HOUR, HOUR));
    assert!(!should_refresh(1, HOUR, HOUR));
    assert!(!should_refresh(HOUR, 0, HOUR));
    assert!(should_refresh(i64::MIN, i64::MAX, HOUR));
}

#[test]
fn single_flight_within_one_window() {
    let mut s = StalenessState::new();
    let t0 = 10 * HOUR;
    let started: Vec<bool> = (0..8).map(|i| s.try_begin(t0 + i * 1000)).collect();
    assert_eq!(started.iter().filter(|b| **b).count(), 1);
    assert!(started[0]);
    // the stored time moved when the refresh was admitted, before it ended
    assert_eq!(s.last_refreshed, t0);
    assert!(s.in_flight);
    s.finish();
    assert_eq!(s.last_refreshed, t0);
    assert!(!s.in_flight);
    assert!(!s.try_begin(t0 + HOUR - 1));
    assert!(s.try_begin(t0 + HOUR));
}

#[test]
fn running_refresh_blocks_later_windows() {
    let mut s = StalenessState::refreshed_at(0);
    assert!(s.try_begin(HOUR));
    assert!(!s.try_begin(5 * HOUR));
    s.finish();
    assert!(s.try_begin(5 * HOUR));
}

#[test]
fn first_check_against_system_clock_is_stale() {
    let mut s = StalenessState::new();
    assert!(s.try_begin_now());
    assert!(s.last_refreshed > 0);
    assert!(!s.try_begin_now());
}

#[test]
fn unreadable_store_counts_as_fresh() {
    assert!(!db_data_is_stale(None, i64::MAX));
    let row = GitHubQueryState { id: 1, last_queried: 0 };
    assert!(db_data_is_stale(Some(row), HOUR));
    assert!(!db_data_is_stale(Some(row), HOUR - 1));
}
