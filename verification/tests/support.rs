use train_sim::columns::find_column;
use train_sim::time::{LogTimer, Timing};

#[test]
fn timing_tracks_min_max_total() {
    let mut timing = Timing::default();

    timing.update(30);
    timing.update(10);
    timing.update(20);

    assert_eq!(timing.min, 10);
    assert_eq!(timing.max, 30);
    assert_eq!(timing.total, 60);
    assert_eq!(timing.counted, 3);
    assert_eq!(timing.average(), 20);
    assert_eq!(timing.report(), Some((10, 30, 20, 60)));
}

#[test]
fn timing_starts_empty() {
    let timing = Timing::default();

    assert_eq!(timing.min, u128::MAX);
    assert_eq!(timing.max, 0);
    assert_eq!(timing.total, 0);
    assert_eq!(timing.counted, 0);
    assert_eq!(timing.report(), None);
}

#[test]
fn log_timer_fires_after_span() {
    let mut timer = LogTimer::default();

    assert!(!timer.update(5_000_000_000));
    assert!(!timer.update(10_000_000_000));
    assert!(timer.update(10_000_000_001));
    // The timer re-anchors at the instant that fired.
    assert!(!timer.update(15_000_000_000));
    assert!(timer.update(20_000_000_002));
}

#[test]
fn find_column_picks_first_match() {
    let headers: Vec<Vec<u8>> = vec![
        b"time".to_vec(),
        b"accel".to_vec(),
        b"accel".to_vec(),
    ];

    assert_eq!(find_column(&headers, &b"accel".to_vec()), Some(1));
    assert_eq!(find_column(&headers, &b"time".to_vec()), Some(0));
    assert_eq!(find_column(&headers, &b"speed".to_vec()), None);
    assert_eq!(find_column(&Vec::new(), &b"accel".to_vec()), None);
}
