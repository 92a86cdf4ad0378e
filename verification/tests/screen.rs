use lifesaver::life::Life;
use lifesaver::render::accent_index;
use lifesaver::screen::{board_needs_resize, clamp_cells, MAX_COLUMNS, MAX_ROWS, MIN_COLUMNS, MIN_ROWS};

#[test]
fn cell_counts_stay_within_bounds() {
    assert_eq!(clamp_cells(160, MIN_COLUMNS, MAX_COLUMNS), 160);
    assert_eq!(clamp_cells(90, MIN_ROWS, MAX_ROWS), 90);
    assert_eq!(clamp_cells(0, MIN_COLUMNS, MAX_COLUMNS), 48);
    assert_eq!(clamp_cells(833, MIN_ROWS, MAX_ROWS), 200);
}

#[test]
fn small_resizes_keep_the_board() {
    let life = Life::new(160, 90);
    assert!(!board_needs_resize(&life, 160, 90));
    assert!(!board_needs_resize(&life, 163, 87));
    assert!(board_needs_resize(&life, 164, 90));
    assert!(board_needs_resize(&life, 160, 86));
}

#[test]
fn accents_cycle_with_age_position_and_time() {
    assert_eq!(accent_index(0, 0, 0, 0), 0);
    assert_eq!(accent_index(7, 0, 0, 0), 1);
    assert_eq!(accent_index(0, 13, 17, 0), 2);
    assert_eq!(accent_index(0, 0, 0, 7), 1);
    assert_eq!(accent_index(0, 0, 0, 42), 0);
    assert_eq!(accent_index(35, 26, 0, 14), (5 + 2 + 2) % 6);
    assert!(accent_index(usize::MAX, usize::MAX, usize::MAX, u64::MAX) < 6);
}
