use lifesaver::life::Life;
use lifesaver::shapes::{classify, glider, lightweight_spaceship, ShapeKind};

fn board_with(points: &[(isize, isize)]) -> Life {
    let mut life = Life::new(20, 20);
    for &(x, y) in points {
        life.set_alive(
            usize::try_from(x).expect("test x coordinate is non-negative"),
            usize::try_from(y).expect("test y coordinate is non-negative"),
            true,
        );
    }
    life
}

#[test]
fn classifies_a_still_life() {
    let life = board_with(&[(4, 3), (5, 3), (4, 4), (5, 4)]);
    let labels = classify(&life);
    assert_eq!(labels[3 * life.width() + 4], Some(ShapeKind::StillLife));
}

#[test]
fn classifies_an_unlisted_still_life() {
    let cells = [(5, 4), (4, 5), (6, 5), (5, 6)]; // tub
    let life = board_with(&cells);
    let labels = classify(&life);

    for (x, y) in cells {
        let x = usize::try_from(x).expect("test x coordinate is non-negative");
        let y = usize::try_from(y).expect("test y coordinate is non-negative");
        assert_eq!(labels[y * life.width() + x], Some(ShapeKind::StillLife));
    }
}

#[test]
fn classifies_a_still_life_across_a_wrapped_edge() {
    let cells = [(19, 4), (0, 4), (19, 5), (0, 5)];
    let life = board_with(&cells);
    let labels = classify(&life);

    for (x, y) in cells {
        let x = usize::try_from(x).expect("test x coordinate is non-negative");
        let y = usize::try_from(y).expect("test y coordinate is non-negative");
        assert_eq!(labels[y * life.width() + x], Some(ShapeKind::StillLife));
    }
}

#[test]
fn classifies_an_oscillator() {
    let life = board_with(&[(3, 4), (4, 4), (5, 4)]);
    let labels = classify(&life);
    assert_eq!(labels[4 * life.width() + 3], Some(ShapeKind::Oscillator));
}

#[test]
fn classifies_a_glider_and_spaceship() {
    let glider = board_with(&glider());
    let glider_labels = classify(&glider);
    assert_eq!(glider_labels[2 * glider.width()], Some(ShapeKind::Glider));

    let ship = board_with(&lightweight_spaceship());
    let ship_labels = classify(&ship);
    assert_eq!(ship_labels[ship.width()], Some(ShapeKind::Spaceship));
}

#[test]
fn labels_every_cell_of_an_unrecognized_component() {
    let cells = [(4, 4), (5, 4), (6, 4), (4, 5), (5, 5)];
    let life = board_with(&cells);
    let labels = classify(&life);

    for (x, y) in cells {
        let x = usize::try_from(x).expect("test x coordinate is non-negative");
        let y = usize::try_from(y).expect("test y coordinate is non-negative");
        assert_eq!(labels[y * life.width() + x], Some(ShapeKind::Unrecognized));
    }
}

#[test]
fn dead_cells_have_no_label_and_live_cells_have_one() {
    let life = board_with(&[(1, 1), (2, 1), (3, 1), (10, 10), (11, 10), (10, 11), (11, 11), (15, 3)]);
    let labels = classify(&life);
    assert_eq!(labels.len(), 400);
    for y in 0..20 {
        for x in 0..20 {
            assert_eq!(labels[y * 20 + x].is_some(), life.is_alive_at(x, y));
        }
    }
    assert_eq!(labels[3 * 20 + 15], Some(ShapeKind::Unrecognized));
}

#[test]
fn rotated_and_mirrored_shapes_are_recognised() {
    let vertical = board_with(&[(7, 2), (7, 3), (7, 4)]);
    assert_eq!(classify(&vertical)[3 * 20 + 7], Some(ShapeKind::Oscillator));

    let mirrored_glider = board_with(&[(11, 0), (10, 1), (12, 2), (11, 2), (10, 2)]);
    assert_eq!(classify(&mirrored_glider)[20 + 10], Some(ShapeKind::Glider));

    let toad = board_with(&[(6, 6), (7, 6), (8, 6), (5, 7), (6, 7), (7, 7)]);
    assert_eq!(classify(&toad)[6 * 20 + 6], Some(ShapeKind::Oscillator));

    let beacon = board_with(&[(2, 12), (3, 12), (2, 13), (3, 13), (4, 14), (5, 14), (4, 15), (5, 15)]);
    let labels = classify(&beacon);
    assert_eq!(labels[12 * 20 + 2], Some(ShapeKind::Oscillator));
    assert_eq!(labels[15 * 20 + 5], Some(ShapeKind::Oscillator));
}

#[test]
fn a_shape_split_by_the_edge_is_recognised() {
    let life = board_with(&[(19, 8), (0, 8), (1, 8)]);
    let labels = classify(&life);
    assert_eq!(labels[8 * 20 + 19], Some(ShapeKind::Oscillator));
    assert_eq!(labels[8 * 20 + 1], Some(ShapeKind::Oscillator));
}

#[test]
fn neighbouring_live_cells_share_a_label() {
    let cells = [(4, 4), (5, 5), (6, 6), (7, 7), (8, 8), (8, 9)];
    let life = board_with(&cells);
    let labels = classify(&life);
    for (x, y) in cells {
        assert_eq!(labels[usize::try_from(y * 20 + x).unwrap()], labels[4 * 20 + 4]);
    }
    assert_eq!(labels[4 * 20 + 4], Some(ShapeKind::Unrecognized));
}

#[test]
fn a_spaceship_touching_other_cells_is_not_isolated() {
    let mut cells = lightweight_spaceship();
    cells.push((5, 1));
    let life = board_with(&cells);
    let labels = classify(&life);
    assert_ne!(labels[20], Some(ShapeKind::Spaceship));
    assert!(labels[20].is_some());
}
