use color_growth::model::too_close;
use color_growth::torus::{destination, distance_squared, wrap, Location, LocationOffset};

fn cell(row: usize, col: usize) -> Location {
    Location { row, col }
}

#[test]
fn wrap_goes_round_the_edges() {
    assert_eq!(wrap(0, -1, 8), 7);
    assert_eq!(wrap(7, 1, 8), 0);
    assert_eq!(wrap(3, 0, 8), 3);
    assert_eq!(wrap(3, 4, 8), 7);
    assert_eq!(wrap(3, -19, 8), 0);
    assert_eq!(wrap(3, 21, 8), 0);
    assert_eq!(wrap(5, -16, 8), 5);
    assert_eq!(wrap(0, i32::MIN, 8), 0);
    assert_eq!(wrap(0, i32::MAX, 8), 7);
    assert_eq!(wrap(26, -27, 27), 26);
}

#[test]
fn destination_moves_rows_and_columns() {
    let to = destination(cell(6, 1), LocationOffset { rows: 3, cols: -2 }, 8);
    assert_eq!(to, cell(1, 7));
    let same = destination(cell(6, 1), LocationOffset { rows: 0, cols: 0 }, 8);
    assert_eq!(same, cell(6, 1));
}

#[test]
fn distance_squared_takes_the_shorter_way_round() {
    assert_eq!(distance_squared(cell(0, 0), cell(0, 0), 8), 0);
    assert_eq!(distance_squared(cell(0, 0), cell(7, 7), 8), 2);
    assert_eq!(distance_squared(cell(7, 7), cell(0, 0), 8), 2);
    assert_eq!(distance_squared(cell(1, 1), cell(5, 5), 8), 32);
    assert_eq!(distance_squared(cell(1, 1), cell(4, 6), 8), 9 + 9);
    assert_eq!(distance_squared(cell(0, 3), cell(6, 3), 8), 4);
    assert_eq!(distance_squared(cell(6, 3), cell(0, 3), 8), 4);
}

#[test]
fn too_close_is_strict_at_the_minimum_spacing() {
    // One seed on a grid of side 8: the spacing is 8 / 2 = 4.
    assert!(too_close(cell(0, 0), cell(0, 0), 8, 1));
    assert!(too_close(cell(0, 0), cell(3, 0), 8, 1));
    assert!(!too_close(cell(0, 0), cell(4, 0), 8, 1));
    assert!(too_close(cell(0, 0), cell(5, 0), 8, 1));
    // Four seeds: the spacing is 8 / 4 = 2.
    assert!(too_close(cell(2, 2), cell(3, 3), 8, 4));
    assert!(!too_close(cell(2, 2), cell(2, 4), 8, 4));
    assert!(!too_close(cell(2, 2), cell(4, 4), 8, 4));
    // Sixty-four seeds: the spacing is half a cell, so only a shared cell is
    // too close.
    assert!(too_close(cell(2, 2), cell(2, 2), 8, 64));
    assert!(!too_close(cell(2, 2), cell(2, 3), 8, 64));
}

#[test]
fn too_close_without_seeds_is_always_true() {
    // No seeds: the spacing has no bound, and every pair is too close.
    assert!(too_close(cell(2, 2), cell(2, 2), 8, 0));
    assert!(too_close(cell(0, 0), cell(4, 4), 8, 0));
}
