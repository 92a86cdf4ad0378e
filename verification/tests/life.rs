use lifesaver::life::{Life, Rng, ZERO_SEED_REPLACEMENT};

#[test]
fn block_is_still_life() {
    let mut life = Life::new(6, 6);
    for (x, y) in [(2, 2), (3, 2), (2, 3), (3, 3)] {
        life.set_alive(x, y, true);
    }

    assert!(!life.tick());
    assert_eq!(life.alive_count(), 4);
    for (x, y) in [(2, 2), (3, 2), (2, 3), (3, 3)] {
        assert!(life.is_alive(x, y));
    }
}

#[test]
fn blinker_alternates_orientation() {
    let mut life = Life::new(7, 7);
    for y in 2..=4 {
        life.set_alive(3, y, true);
    }

    assert!(life.tick());
    for x in 2..=4 {
        assert!(life.is_alive(x, 3));
    }
    assert!(life.tick());
    for y in 2..=4 {
        assert!(life.is_alive(3, y));
    }
}

#[test]
fn glider_moves_diagonally_after_four_generations() {
    let mut life = Life::new(12, 12);
    for (x, y) in [(1, 0), (2, 1), (0, 2), (1, 2), (2, 2)] {
        life.set_alive(x, y, true);
    }
    for _ in 0..4 {
        life.tick();
    }

    for (x, y) in [(2, 1), (3, 2), (1, 3), (2, 3), (3, 3)] {
        assert!(life.is_alive(x, y), "expected a live cell at ({x}, {y})");
    }
}

#[test]
fn edges_wrap() {
    let mut life = Life::new(5, 5);
    for (x, y) in [(4, 2), (0, 2), (1, 2)] {
        life.set_alive(x, y, true);
    }

    life.tick();
    assert!(life.is_alive(0, 1));
    assert!(life.is_alive(0, 2));
    assert!(life.is_alive(0, 3));
}

#[test]
fn new_board_is_empty_and_counts_from_zero() {
    let life = Life::new(8, 5);
    assert_eq!(life.width(), 8);
    assert_eq!(life.height(), 5);
    assert_eq!(life.generation(), 0);
    assert_eq!(life.last_change_count(), 0);
    assert_eq!(life.alive_count(), 0);
    for y in 0..5 {
        for x in 0..8 {
            assert!(!life.is_alive_at(x, y));
            assert_eq!(life.age(x, y), 0);
        }
    }
}

#[test]
fn coordinates_wrap_in_both_directions() {
    let mut life = Life::new(5, 4);
    life.set_alive(4, 3, true);
    assert!(life.is_alive(-1, -1));
    assert!(life.is_alive(9, 7));
    assert!(life.is_alive(4 - 5 * 3, 3 + 4 * 2));
    assert!(!life.is_alive(0, 0));
}

#[test]
fn ages_count_survived_generations() {
    let mut life = Life::new(6, 6);
    for (x, y) in [(2, 2), (3, 2), (2, 3), (3, 3)] {
        life.set_alive(x, y, true);
    }
    assert_eq!(life.age(2, 2), 1);
    life.tick();
    life.tick();
    assert_eq!(life.age(2, 2), 3);
    assert_eq!(life.age(0, 0), 0);
}

#[test]
fn newborn_cells_have_age_one_and_dying_cells_age_zero() {
    let mut life = Life::new(7, 7);
    for y in 2..=4 {
        life.set_alive(3, y, true);
    }
    life.tick();
    assert_eq!(life.age(2, 3), 1);
    assert_eq!(life.age(3, 3), 2);
    assert_eq!(life.age(3, 2), 0);
    assert!(!life.is_alive_at(3, 2));
}

#[test]
fn tick_counts_changes_and_generations() {
    let mut life = Life::new(7, 7);
    for y in 2..=4 {
        life.set_alive(3, y, true);
    }
    assert!(life.tick());
    assert_eq!(life.last_change_count(), 4);
    assert_eq!(life.generation(), 1);
    assert_eq!(life.alive_count(), 3);
}

#[test]
fn an_unchanged_board_reports_no_change() {
    let mut life = Life::new(5, 5);
    assert!(!life.tick());
    assert_eq!(life.last_change_count(), 0);
    assert_eq!(life.generation(), 1);
    assert_eq!(life.alive_count(), 0);
}

#[test]
fn lonely_cells_die_and_crowded_cells_die() {
    let mut life = Life::new(8, 8);
    life.set_alive(1, 1, true);
    assert!(!life.will_be_alive_at(1, 1));
    for (x, y) in [(4, 4), (3, 4), (5, 4), (4, 3), (4, 5)] {
        life.set_alive(x, y, true);
    }
    assert!(!life.will_be_alive_at(4, 4));
    assert!(life.will_be_alive_at(3, 3));
    life.tick();
    assert!(!life.is_alive_at(1, 1));
    assert!(!life.is_alive_at(4, 4));
    assert!(life.is_alive_at(3, 3));
}

#[test]
fn a_tiny_board_counts_wrapped_neighbours_repeatedly() {
    let mut life = Life::new(1, 1);
    life.set_alive(0, 0, true);
    assert!(!life.will_be_alive_at(0, 0));
    assert!(life.tick());
    assert!(!life.is_alive(0, 0));
}

#[test]
fn set_alive_clears_age_of_dead_cells() {
    let mut life = Life::new(3, 3);
    life.set_alive(1, 1, true);
    assert_eq!(life.age(1, 1), 1);
    life.set_alive(1, 1, false);
    assert_eq!(life.age(1, 1), 0);
    assert!(!life.is_alive_at(1, 1));
}

#[test]
fn seeding_draws_one_number_per_cell_and_restarts_generations() {
    let mut life = Life::new(3, 2);
    life.tick();
    let mut rng = Rng::new(7);
    life.seed_random(&mut rng, 1 << 22);
    assert_eq!(life.generation(), 0);
    assert_eq!(life.last_change_count(), 0);
    let expected = [true, true, false, true, true, false];
    for (index, alive) in expected.iter().enumerate() {
        assert_eq!(life.is_alive_at(index % 3, index / 3), *alive);
        assert_eq!(life.age(index % 3, index / 3), u16::from(*alive));
    }
    assert_eq!(life.alive_count(), 4);

    let mut replay = Rng::new(7);
    for _ in 0..6 {
        replay.next_mantissa();
    }
    assert_eq!(rng.next_mantissa(), replay.next_mantissa());
}

#[test]
fn seeding_thresholds_cover_empty_and_full_boards() {
    let mut life = Life::new(4, 4);
    let mut rng = Rng::new(99);
    life.seed_random(&mut rng, 0);
    assert_eq!(life.alive_count(), 0);
    life.seed_random(&mut rng, 1 << 23);
    assert_eq!(life.alive_count(), 16);
}

#[test]
fn clones_are_equal_and_independent() {
    let mut life = Life::new(6, 6);
    life.set_alive(2, 2, true);
    let copy = life.clone();
    life.tick();
    assert!(copy.is_alive_at(2, 2));
    assert!(!life.is_alive_at(2, 2));
    assert_eq!(copy.generation(), 0);
}

#[test]
fn zero_seed_is_replaced() {
    let mut zero = Rng::new(0);
    let mut replacement = Rng::new(ZERO_SEED_REPLACEMENT);
    assert_eq!(zero.next_mantissa(), replacement.next_mantissa());
    assert_eq!(zero.next_mantissa(), replacement.next_mantissa());
}

#[test]
fn generator_follows_xorshift() {
    let mut rng = Rng::new(1);
    assert_eq!(rng.next_mantissa(), 0);
    assert_eq!(rng.next_mantissa(), 524_320);
    let mut other = Rng::new(0);
    assert_eq!(other.next_mantissa(), 7_212_475);
}

#[test]
fn generator_output_fits_a_mantissa() {
    let mut rng = Rng::new(0xdead_beef);
    for _ in 0..1_000 {
        assert!(rng.next_mantissa() < 0x80_0000);
    }
}
