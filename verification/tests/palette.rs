use std::collections::HashSet;

use color_growth::palette::{
    color_axis_size, color_base_to_color, color_bases, color_count, grid_size, Color, ColorCoord,
};

#[test]
fn sizes_follow_the_scale() {
    assert_eq!(color_axis_size(2), 4);
    assert_eq!(grid_size(2), 8);
    assert_eq!(color_count(2), 64);
    assert_eq!(color_axis_size(3), 9);
    assert_eq!(grid_size(3), 27);
    assert_eq!(color_count(3), 729);
    assert_eq!(color_axis_size(16), 256);
    assert_eq!(grid_size(16), 4096);
    assert_eq!(color_count(16), 16_777_216);
}

#[test]
fn color_bases_are_the_digits_of_their_place() {
    let bases = color_bases(2);
    assert_eq!(bases.len(), 64);
    assert_eq!(bases[0], ColorCoord { r: 0, g: 0, b: 0 });
    assert_eq!(bases[1], ColorCoord { r: 1, g: 0, b: 0 });
    assert_eq!(bases[3], ColorCoord { r: 3, g: 0, b: 0 });
    assert_eq!(bases[4], ColorCoord { r: 0, g: 1, b: 0 });
    assert_eq!(bases[16], ColorCoord { r: 0, g: 0, b: 1 });
    assert_eq!(bases[27], ColorCoord { r: 3, g: 2, b: 1 });
    assert_eq!(bases[63], ColorCoord { r: 3, g: 3, b: 3 });
}

#[test]
fn color_bases_are_distinct_and_on_the_lattice() {
    for scale in 2..=4u64 {
        let axis = color_axis_size(scale);
        let bases = color_bases(scale);
        assert_eq!(bases.len() as u64, scale.pow(6));
        let mut seen = HashSet::new();
        for coord in &bases {
            assert!((coord.r as u64) < axis);
            assert!((coord.g as u64) < axis);
            assert!((coord.b as u64) < axis);
            assert!(seen.insert(*coord));
        }
        assert_eq!(seen.len() as u64, scale.pow(6));
    }
}

#[test]
fn color_base_to_color_spreads_the_levels() {
    let coord = ColorCoord { r: 0, g: 1, b: 2 };
    assert_eq!(color_base_to_color(coord, 4), Color { r: 0, g: 85, b: 170 });
    let top = ColorCoord { r: 3, g: 3, b: 0 };
    assert_eq!(color_base_to_color(top, 4), Color { r: 255, g: 255, b: 0 });
    let nine = ColorCoord { r: 1, g: 4, b: 8 };
    assert_eq!(color_base_to_color(nine, 9), Color { r: 31, g: 127, b: 255 });
}

#[test]
fn color_base_to_color_is_the_identity_on_a_full_axis() {
    for level in [0u8, 1, 17, 128, 254, 255] {
        let coord = ColorCoord { r: level, g: level, b: level };
        assert_eq!(color_base_to_color(coord, 256), Color { r: level, g: level, b: level });
    }
}

#[test]
fn color_base_to_color_cuts_to_a_byte_off_the_lattice() {
    // Level 3 of a two-level axis spreads to 765, which is 253 in a byte.
    let coord = ColorCoord { r: 3, g: 1, b: 0 };
    assert_eq!(color_base_to_color(coord, 2), Color { r: 253, g: 255, b: 0 });
}

#[test]
fn display_colors_of_a_palette_are_distinct() {
    for scale in 2..=3u64 {
        let axis = color_axis_size(scale);
        let mut seen = HashSet::new();
        for coord in color_bases(scale) {
            assert!(seen.insert(color_base_to_color(coord, axis)));
        }
    }
}
