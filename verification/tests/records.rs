use color_growth::grid::{Grid, Heading, Pixel};
use color_growth::index::ColorIndex;
use color_growth::model::{better, check, Best, ConfigError};
use color_growth::offsets::{color_offsets, location_offsets, ColorOffset};
use color_growth::palette::{color_bases, Color, ColorCoord};
use color_growth::search::{most_similar, next_open, step};
use color_growth::torus::{Location, LocationOffset};

fn cell(row: usize, col: usize) -> Location {
    Location { row, col }
}

fn coord(r: u8, g: u8, b: u8) -> ColorCoord {
    ColorCoord { r, g, b }
}

fn pixel(level: u8) -> Pixel {
    Pixel { color: Color { r: level, g: level, b: level }, heading: Heading::Drawn(level as u64) }
}

#[test]
fn grid_starts_empty() {
    let grid = Grid::new(8);
    assert_eq!(grid.side(), 8);
    for row in 0..8 {
        for col in 0..8 {
            assert_eq!(grid.get(cell(row, col)), None);
        }
    }
}

#[test]
fn grid_fills_a_cell_once() {
    let mut grid = Grid::new(4);
    assert!(grid.put(cell(1, 2), pixel(10)));
    assert_eq!(grid.get(cell(1, 2)), Some(pixel(10)));
    assert_eq!(grid.get(cell(2, 1)), None);
    assert!(!grid.put(cell(1, 2), pixel(20)));
    assert_eq!(grid.get(cell(1, 2)), Some(pixel(10)));
    assert!(grid.put(cell(2, 1), pixel(20)));
    assert_eq!(grid.get(cell(2, 1)), Some(pixel(20)));
}

#[test]
fn grid_has_nothing_outside() {
    let mut grid = Grid::new(4);
    assert!(!grid.put(cell(4, 0), pixel(1)));
    assert!(!grid.put(cell(0, 4), pixel(1)));
    assert_eq!(grid.get(cell(4, 0)), None);
    assert_eq!(grid.get(cell(0, 17)), None);
}

#[test]
fn index_records_a_color_once() {
    let mut index = ColorIndex::new(4);
    assert_eq!(index.get(coord(1, 2, 3)), None);
    assert!(index.insert(coord(1, 2, 3), cell(5, 6)));
    assert_eq!(index.get(coord(1, 2, 3)), Some(cell(5, 6)));
    assert_eq!(index.get(coord(3, 2, 1)), None);
    assert!(!index.insert(coord(1, 2, 3), cell(0, 0)));
    assert_eq!(index.get(coord(1, 2, 3)), Some(cell(5, 6)));
}

#[test]
fn index_knows_only_its_lattice() {
    let mut index = ColorIndex::new(4);
    assert!(!index.insert(coord(4, 0, 0), cell(0, 0)));
    assert!(!index.insert(coord(0, 0, 255), cell(0, 0)));
    assert_eq!(index.get(coord(4, 0, 0)), None);
    assert_eq!(index.get(coord(0, 0, 255)), None);
}

#[test]
fn step_stays_within_a_byte() {
    let from = coord(1, 2, 250);
    assert_eq!(step(from, ColorOffset { r: 2, g: -2, b: 5 }), Some(coord(3, 0, 255)));
    assert_eq!(step(from, ColorOffset { r: -2, g: 0, b: 0 }), None);
    assert_eq!(step(from, ColorOffset { r: 0, g: 0, b: 6 }), None);
    assert_eq!(step(from, ColorOffset { r: 0, g: 254, b: 0 }), None);
    assert_eq!(step(from, ColorOffset { r: 0, g: 0, b: 0 }), Some(from));
}

#[test]
fn most_similar_takes_the_first_step_that_arrives() {
    let ranking = color_offsets(&color_bases(2));
    let mut index = ColorIndex::new(4);
    assert_eq!(most_similar(&index, &ranking, coord(1, 1, 1)), None);
    index.insert(coord(3, 3, 3), cell(0, 0));
    assert_eq!(most_similar(&index, &ranking, coord(1, 1, 1)), Some(cell(0, 0)));
    index.insert(coord(1, 1, 3), cell(1, 1));
    assert_eq!(most_similar(&index, &ranking, coord(1, 1, 1)), Some(cell(1, 1)));
    // Red ranks before blue among steps of one length.
    index.insert(coord(1, 1, 0), cell(2, 2));
    index.insert(coord(2, 1, 1), cell(3, 3));
    assert_eq!(most_similar(&index, &ranking, coord(1, 1, 1)), Some(cell(3, 3)));
    // A color that is placed is its own nearest.
    index.insert(coord(1, 1, 1), cell(4, 4));
    assert_eq!(most_similar(&index, &ranking, coord(1, 1, 1)), Some(cell(4, 4)));
}

#[test]
fn next_open_skips_filled_cells() {
    let ranking = location_offsets(2);
    let mut grid = Grid::new(8);
    let around = cell(3, 3);
    assert_eq!(next_open(&grid, &ranking, around, 0), Some(0));
    grid.put(around, pixel(1));
    // The four zero moves lead to the filled cell.
    assert_eq!(next_open(&grid, &ranking, around, 0), Some(4));
    assert_eq!(ranking[4], LocationOffset { rows: 1, cols: 0 });
    grid.put(cell(4, 3), pixel(2));
    assert_eq!(next_open(&grid, &ranking, around, 0), Some(6));
    assert_eq!(next_open(&grid, &ranking, around, 7), Some(7));
    assert_eq!(next_open(&grid, &ranking, around, ranking.len()), None);
    assert_eq!(next_open(&grid, &ranking, around, ranking.len() + 5), None);
}

#[test]
fn next_open_finds_nothing_on_a_full_grid() {
    let ranking = location_offsets(2);
    let mut grid = Grid::new(8);
    for row in 0..8 {
        for col in 0..8 {
            grid.put(cell(row, col), pixel(0));
        }
    }
    assert_eq!(next_open(&grid, &ranking, cell(0, 0), 0), None);
}

#[test]
fn better_keeps_the_earlier_of_equal_costs() {
    let first = better(None, 9, 4);
    assert_eq!(first, Best { cost: 9, candidate: 4 });
    assert_eq!(better(Some(first), 9, 5), first);
    assert_eq!(better(Some(first), 10, 5), first);
    assert_eq!(better(Some(first), 8, 5), Best { cost: 8, candidate: 5 });
}

#[test]
fn check_names_the_first_fault() {
    assert_eq!(check(2, 1), Ok(()));
    assert_eq!(check(2, 64), Ok(()));
    assert_eq!(check(16, 1), Ok(()));
    assert_eq!(check(0, 1), Err(ConfigError::ScaleTooSmall));
    assert_eq!(check(1, 0), Err(ConfigError::ScaleTooSmall));
    assert_eq!(check(17, 1), Err(ConfigError::ScaleTooLarge));
    assert_eq!(check(u64::MAX, 1), Err(ConfigError::ScaleTooLarge));
    assert_eq!(check(2, 0), Err(ConfigError::NoSeeds));
    assert_eq!(check(2, 65), Err(ConfigError::TooManySeeds));
    assert_eq!(check(3, 729), Ok(()));
    assert_eq!(check(3, 730), Err(ConfigError::TooManySeeds));
}
