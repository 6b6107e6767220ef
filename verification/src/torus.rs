//! Cells of the square grid and moves between them; the grid wraps around at
//! its edges.

use vstd::prelude::*;
use vstd::arithmetic::div_mod::{
    lemma_fundamental_div_mod, lemma_fundamental_div_mod_converse, lemma_mod_multiples_vanish,
};

verus! {

/// Largest grid side that the arithmetic here is written for.
pub const MAX_SIDE: usize = 4096;

/// A cell of the grid.
#[derive(Clone, Copy, Debug, PartialEq, Eq, Hash, Structural)]
pub struct Location {
    pub row: usize,
    pub col: usize,
}

/// A move from one cell to another, in rows and in columns.
#[derive(Clone, Copy, Debug, PartialEq, Eq, Hash, Structural)]
pub struct LocationOffset {
    pub rows: i32,
    pub cols: i32,
}

impl Location {
    /// The cell lies on a grid of side `side`.
    pub open spec fn within(self, side: int) -> bool {
        self.row < side && self.col < side
    }

    /// Place of the cell when the rows are laid one after another.
    pub open spec fn flat(self, side: int) -> int {
        self.row * side + self.col
    }
}

/// Where a move by `by` from coordinate `at` ends on an axis of length `side`
/// that wraps around.
pub open spec fn spec_wrap(at: int, by: int, side: int) -> int {
    (at + by) % side
}

/// The cell reached from `from` by `offset` on a wrapping grid.
pub open spec fn spec_destination(from: Location, offset: LocationOffset, side: int) -> Location {
    Location {
        row: spec_wrap(from.row as int, offset.rows as int, side) as usize,
        col: spec_wrap(from.col as int, offset.cols as int, side) as usize,
    }
}

/// Moves along one wrapping axis.
pub fn wrap(at: usize, by: i32, side: usize) -> (end: usize)
    requires
        0 < side <= MAX_SIDE,
        at < side,
    ensures
        end == spec_wrap(at as int, by as int, side as int),
        end < side,
{
    let s: u64 = side as u64;
    let wide: i64 = by as i64;
    let shift: u64 = if wide >= 0 {
        (wide as u64) % s
    } else {
        let back: u64 = ((-wide) as u64) % s;
        if back == 0 {
            0
        } else {
            s - back
        }
    };
    proof {
        // `shift` is `by` reduced to `0..side`.
        let b = by as int;
        let d = side as int;
        if b < 0 {
            lemma_fundamental_div_mod(-b, d);
            let q = (-b) / d;
            let back = (-b) % d;
            if back == 0 {
                assert(b == (-q) * d + 0) by (nonlinear_arith)
                    requires -b == d * q + 0;
                lemma_fundamental_div_mod_converse(b, d, -q, 0);
            } else {
                assert(b == (-q - 1) * d + (d - back)) by (nonlinear_arith)
                    requires -b == d * q + back;
                lemma_fundamental_div_mod_converse(b, d, -q - 1, d - back);
            }
        }
        assert(shift == b % d);
        lemma_fundamental_div_mod(b, d);
        let q = b / d;
        assert(at + b == d * q + (at + shift));
        lemma_mod_multiples_vanish(q, at + shift, d);
    }
    ((at as u64 + shift) % s) as usize
}

/// Finds the cell that a move ends in.
pub fn destination(from: Location, offset: LocationOffset, side: usize) -> (to: Location)
    requires
        0 < side <= MAX_SIDE,
        from.within(side as int),
    ensures
        to == spec_destination(from, offset, side as int),
        to.within(side as int),
{
    Location { row: wrap(from.row, offset.rows, side), col: wrap(from.col, offset.cols, side) }
}

/// Shortest way between two coordinates of a wrapping axis.
pub open spec fn spec_gap(a: int, b: int, side: int) -> int {
    let straight = if a <= b {
        b - a
    } else {
        a - b
    };
    if straight <= side - straight {
        straight
    } else {
        side - straight
    }
}

/// Square of the distance between two cells of a wrapping grid.
pub open spec fn spec_distance_squared(a: Location, b: Location, side: int) -> int {
    spec_gap(a.row as int, b.row as int, side) * spec_gap(a.row as int, b.row as int, side)
        + spec_gap(a.col as int, b.col as int, side) * spec_gap(
        a.col as int,
        b.col as int,
        side,
    )
}

/// Measures the shortest way between two coordinates of a wrapping axis.
fn gap(a: usize, b: usize, side: usize) -> (g: u64)
    requires
        side <= MAX_SIDE,
        a < side,
        b < side,
    ensures
        g == spec_gap(a as int, b as int, side as int),
        g <= side / 2,
{
    let straight: usize = if a <= b {
        b - a
    } else {
        a - b
    };
    if straight <= side - straight {
        straight as u64
    } else {
        (side - straight) as u64
    }
}

/// Measures the squared distance between two cells of a wrapping grid.
pub fn distance_squared(a: Location, b: Location, side: usize) -> (d: u64)
    requires
        side <= MAX_SIDE,
        a.within(side as int),
        b.within(side as int),
    ensures
        d == spec_distance_squared(a, b, side as int),
        d <= 2 * 2048 * 2048,
        d == 0 <==> a == b,
{
    let rows: u64 = gap(a.row, b.row, side);
    let cols: u64 = gap(a.col, b.col, side);
    assert(rows * rows <= 2048 * 2048 && cols * cols <= 2048 * 2048 && (rows * rows == 0 <==> rows
        == 0) && (cols * cols == 0 <==> cols == 0)) by (nonlinear_arith)
        requires
            rows <= 2048,
            cols <= 2048,
    ;
    rows * rows + cols * cols
}

} // verus!
