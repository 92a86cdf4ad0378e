use lifesaver::activity::{
    should_reseed, ActivityMonitor, ACTIVITY_WINDOW_GENERATIONS, MAX_GENERATIONS_PER_SEED,
    MIN_GENERATIONS_BEFORE_QUIET_RESEED,
};
use lifesaver::life::Life;

#[test]
fn quiet_threshold_scales_with_board_size() {
    let mut quiet = ActivityMonitor::default();
    for _ in 0..ACTIVITY_WINDOW_GENERATIONS {
        quiet.record(4);
    }
    assert!(quiet.is_quiet(1_000));

    let mut active = ActivityMonitor::default();
    for _ in 0..ACTIVITY_WINDOW_GENERATIONS {
        active.record(5);
    }
    assert!(!active.is_quiet(1_000));
}

#[test]
fn a_partial_window_is_never_quiet() {
    let mut monitor = ActivityMonitor::default();
    for _ in 0..ACTIVITY_WINDOW_GENERATIONS - 1 {
        monitor.record(0);
    }
    assert!(!monitor.is_quiet(1_000_000));
    monitor.record(0);
    assert!(monitor.is_quiet(1));
}

#[test]
fn the_window_forgets_old_generations() {
    let mut monitor = ActivityMonitor::default();
    monitor.record(1_000);
    for _ in 0..ACTIVITY_WINDOW_GENERATIONS - 1 {
        monitor.record(0);
    }
    assert!(!monitor.is_quiet(1_000));
    monitor.record(0);
    assert!(monitor.is_quiet(1_000));
}

#[test]
fn a_larger_board_tolerates_more_activity() {
    let mut monitor = ActivityMonitor::default();
    for _ in 0..ACTIVITY_WINDOW_GENERATIONS {
        monitor.record(8);
    }
    assert!(!monitor.is_quiet(1_000));
    assert!(monitor.is_quiet(2_000));
    assert!(monitor.is_quiet(usize::MAX));
}

#[test]
fn clearing_forgets_the_window() {
    let mut monitor = ActivityMonitor::default();
    for _ in 0..ACTIVITY_WINDOW_GENERATIONS {
        monitor.record(0);
    }
    assert!(monitor.is_quiet(10));
    monitor.clear();
    assert!(!monitor.is_quiet(10));
}

#[test]
fn huge_counts_saturate() {
    let mut monitor = ActivityMonitor::default();
    monitor.record(usize::MAX);
    monitor.record(usize::MAX);
    for _ in 0..ACTIVITY_WINDOW_GENERATIONS {
        monitor.record(0);
    }
    assert!(monitor.is_quiet(1));
}

#[test]
fn an_extinct_board_is_reseeded() {
    let life = Life::new(10, 10);
    let activity = ActivityMonitor::default();
    assert!(should_reseed(&life, &activity));
}

#[test]
fn a_young_living_board_is_kept() {
    let mut life = Life::new(10, 10);
    for (x, y) in [(2, 2), (3, 2), (2, 3), (3, 3)] {
        life.set_alive(x, y, true);
    }
    let mut activity = ActivityMonitor::default();
    for _ in 0..ACTIVITY_WINDOW_GENERATIONS {
        activity.record(0);
    }
    assert!(!should_reseed(&life, &activity));
}

#[test]
fn a_quiet_board_is_reseeded_after_its_minimum_run() {
    let mut life = Life::new(10, 10);
    for (x, y) in [(2, 2), (3, 2), (2, 3), (3, 3)] {
        life.set_alive(x, y, true);
    }
    let mut activity = ActivityMonitor::default();
    for _ in 0..MIN_GENERATIONS_BEFORE_QUIET_RESEED - 1 {
        life.tick();
        activity.record(life.last_change_count());
    }
    assert!(!should_reseed(&life, &activity));
    life.tick();
    activity.record(life.last_change_count());
    assert!(should_reseed(&life, &activity));
}

#[test]
fn a_busy_board_is_reseeded_after_its_maximum_run() {
    let mut life = Life::new(10, 10);
    for (x, y) in [(2, 2), (3, 2), (2, 3), (3, 3)] {
        life.set_alive(x, y, true);
    }
    let mut activity = ActivityMonitor::default();
    for _ in 0..ACTIVITY_WINDOW_GENERATIONS {
        activity.record(100);
    }
    for _ in 0..MAX_GENERATIONS_PER_SEED - 1 {
        life.tick();
    }
    assert!(!should_reseed(&life, &activity));
    life.tick();
    assert!(should_reseed(&life, &activity));
}
