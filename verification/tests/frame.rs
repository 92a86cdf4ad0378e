use lifesaver::activity::{ActivityMonitor, ACTIVITY_WINDOW_GENERATIONS};
use lifesaver::frame::{advance, reseed};
use lifesaver::life::{Life, Rng};

fn block() -> Life {
    let mut life = Life::new(10, 10);
    for (x, y) in [(2, 2), (3, 2), (2, 3), (3, 3)] {
        life.set_alive(x, y, true);
    }
    life
}

#[test]
fn a_frame_runs_the_due_generations() {
    let mut life = block();
    let mut activity = ActivityMonitor::default();
    let mut rng = Rng::new(5);
    assert!(advance(&mut life, &mut activity, &mut rng, 1 << 22, 3));
    assert_eq!(life.generation(), 3);
    assert_eq!(life.alive_count(), 4);
    assert!(!activity.is_quiet(100));
}

#[test]
fn an_idle_frame_changes_nothing() {
    let mut life = block();
    let mut activity = ActivityMonitor::default();
    let mut rng = Rng::new(5);
    assert!(!advance(&mut life, &mut activity, &mut rng, 1 << 22, 0));
    assert_eq!(life.generation(), 0);
    assert_eq!(life.age(2, 2), 1);
}

#[test]
fn an_extinct_board_is_seeded_afresh() {
    let mut life = Life::new(10, 10);
    let mut activity = ActivityMonitor::default();
    for _ in 0..ACTIVITY_WINDOW_GENERATIONS {
        activity.record(0);
    }
    let mut rng = Rng::new(5);
    assert!(advance(&mut life, &mut activity, &mut rng, 1 << 23, 1));
    assert_eq!(life.alive_count(), 100);
    assert_eq!(life.generation(), 0);
    assert!(!activity.is_quiet(100));
}

#[test]
fn reseeding_forgets_the_history() {
    let mut life = block();
    let mut activity = ActivityMonitor::default();
    for _ in 0..ACTIVITY_WINDOW_GENERATIONS {
        activity.record(0);
    }
    let mut rng = Rng::new(5);
    reseed(&mut life, &mut activity, &mut rng, 0);
    assert_eq!(life.alive_count(), 0);
    assert!(!activity.is_quiet(100));
}
