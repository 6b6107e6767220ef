use color_growth::canvas::assemble;
use color_growth::grid::{Grid, Heading, Pixel};
use color_growth::palette::Color;
use color_growth::torus::Location;
use image::{Rgb, RgbImage};

#[test]
fn assemble_leaves_empty_cells_black() {
    let grid = Grid::new(4);
    let samples = assemble(&grid).into_samples();
    assert_eq!(samples, vec![0u8; 48]);
}

#[test]
fn assemble_puts_a_cell_at_its_row_across_and_its_column_down() {
    let mut grid = Grid::new(4);
    let color = Color { r: 10, g: 20, b: 30 };
    grid.put(Location { row: 1, col: 2 }, Pixel { color, heading: Heading::Drawn(0) });
    let samples = assemble(&grid).into_samples();
    assert_eq!(samples.len(), 48);
    let start = (2 * 4 + 1) * 3;
    for (at, sample) in samples.iter().enumerate() {
        let expected = if at == start {
            10
        } else if at == start + 1 {
            20
        } else if at == start + 2 {
            30
        } else {
            0
        };
        assert_eq!(*sample, expected);
    }
    let image = RgbImage::from_raw(4, 4, samples).unwrap();
    assert_eq!(*image.get_pixel(1, 2), Rgb([10, 20, 30]));
    assert_eq!(*image.get_pixel(2, 1), Rgb([0, 0, 0]));
}

#[test]
fn assemble_copies_every_cell() {
    let mut grid = Grid::new(8);
    for row in 0..8usize {
        for col in 0..8usize {
            if (row + col) % 3 != 0 {
                let color = Color { r: row as u8 + 1, g: col as u8 + 1, b: (row * 8 + col) as u8 };
                grid.put(Location { row, col }, Pixel { color, heading: Heading::Drawn(7) });
            }
        }
    }
    let image = RgbImage::from_raw(8, 8, assemble(&grid).into_samples()).unwrap();
    for row in 0..8u32 {
        for col in 0..8u32 {
            let expected = if (row + col) % 3 != 0 {
                Rgb([row as u8 + 1, col as u8 + 1, (row * 8 + col) as u8])
            } else {
                Rgb([0, 0, 0])
            };
            assert_eq!(*image.get_pixel(row, col), expected);
        }
    }
}
