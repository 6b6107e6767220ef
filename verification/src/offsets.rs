//! The two rankings that growth scans: steps between colors and moves between
//! cells, each ordered by squared length.

use vstd::prelude::*;
use vstd::arithmetic::div_mod::{
    lemma_fundamental_div_mod_converse, lemma_multiply_divide_lt, lemma_small_mod,
};
use crate::palette::{
    lemma_color_bases, lemma_sizes, spec_color_axis_size, spec_color_bases, spec_grid_size,
    valid_scale, grid_size, ColorCoord,
};
use crate::ranking::{ascending, lemma_ranking_keeps_items, rank_stably, stably_ranked, Ranked};
use crate::torus::{spec_destination, Location, LocationOffset};

verus! {

/// A step from one color coordinate to another, one signed amount per axis.
#[derive(Clone, Copy, Debug, PartialEq, Eq, Hash, Structural)]
pub struct ColorOffset {
    pub r: i16,
    pub g: i16,
    pub b: i16,
}

impl Ranked for ColorOffset {
    open spec fn rank(&self) -> nat {
        (self.r * self.r + self.g * self.g + self.b * self.b) as nat
    }

    fn measure(&self) -> (m: u64) {
        let r: i64 = self.r as i64;
        let g: i64 = self.g as i64;
        let b: i64 = self.b as i64;
        assert(0 <= r * r <= 0x4000_0000 && 0 <= g * g <= 0x4000_0000 && 0 <= b * b
            <= 0x4000_0000) by (nonlinear_arith)
            requires
                -0x8000 <= r <= 0x8000,
                -0x8000 <= g <= 0x8000,
                -0x8000 <= b <= 0x8000,
        ;
        (r * r + g * g + b * b) as u64
    }
}

impl Ranked for LocationOffset {
    open spec fn rank(&self) -> nat {
        (self.rows * self.rows + self.cols * self.cols) as nat
    }

    fn measure(&self) -> (m: u64) {
        let rows: i64 = self.rows as i64;
        let cols: i64 = self.cols as i64;
        assert(0 <= rows * rows <= 0x4000_0000_0000_0000 && 0 <= cols * cols
            <= 0x4000_0000_0000_0000) by (nonlinear_arith)
            requires
                -0x8000_0000 <= rows <= 0x8000_0000,
                -0x8000_0000 <= cols <= 0x8000_0000,
        ;
        (rows * rows) as u64 + (cols * cols) as u64
    }
}

/// `value`, or its negative.
pub open spec fn flip(value: int, negate: bool) -> int {
    if negate {
        -value
    } else {
        value
    }
}

/// One of the eight ways to give signs to the levels of a coordinate. The
/// three low bits of `variant` say which axes are negated: 4 for red, 2 for
/// green, 1 for blue.
pub open spec fn color_variant(coord: ColorCoord, variant: int) -> ColorOffset {
    ColorOffset {
        r: flip(coord.r as int, variant / 4 % 2 == 1) as i16,
        g: flip(coord.g as int, variant / 2 % 2 == 1) as i16,
        b: flip(coord.b as int, variant % 2 == 1) as i16,
    }
}

/// The steps before ranking: for each coordinate in turn its eight signed
/// variants, variant 0 first.
pub open spec fn spec_color_sweep(bases: Seq<ColorCoord>) -> Seq<ColorOffset> {
    Seq::new(8 * bases.len(), |k: int| color_variant(bases[k / 8], k % 8))
}

/// The step that leads from `from` to `to`.
pub open spec fn color_step(from: ColorCoord, to: ColorCoord) -> ColorOffset {
    ColorOffset {
        r: (to.r - from.r) as i16,
        g: (to.g - from.g) as i16,
        b: (to.b - from.b) as i16,
    }
}

/// Lists the eight signed variants of every coordinate, in the order of the
/// coordinates.
fn color_sweep(bases: &Vec<ColorCoord>) -> (sweep: Vec<ColorOffset>)
    requires
        8 * bases.len() <= usize::MAX,
    ensures
        sweep@ == spec_color_sweep(bases@),
{
    let mut sweep: Vec<ColorOffset> = Vec::new();
    let mut n: usize = 0;
    while n < bases.len()
        invariant
            8 * bases.len() <= usize::MAX,
            n <= bases.len(),
            sweep.len() == 8 * n,
            forall|k: int| 0 <= k < 8 * n ==> sweep[k] == color_variant(bases[k / 8], k % 8),
        decreases bases.len() - n,
    {
        let coord = bases[n];
        let r: i16 = coord.r as i16;
        let g: i16 = coord.g as i16;
        let b: i16 = coord.b as i16;
        sweep.push(ColorOffset { r, g, b });
        sweep.push(ColorOffset { r, g, b: -b });
        sweep.push(ColorOffset { r, g: -g, b });
        sweep.push(ColorOffset { r, g: -g, b: -b });
        sweep.push(ColorOffset { r: -r, g, b });
        sweep.push(ColorOffset { r: -r, g, b: -b });
        sweep.push(ColorOffset { r: -r, g: -g, b });
        sweep.push(ColorOffset { r: -r, g: -g, b: -b });
        n += 1;
    }
    assert(sweep@ =~= spec_color_sweep(bases@));
    sweep
}

/// Ranks the steps between colors: the eight signed variants of every
/// coordinate, ordered by squared length, variants of equal length in the
/// order of their coordinates.
pub fn color_offsets(bases: &Vec<ColorCoord>) -> (ranking: Vec<ColorOffset>)
    requires
        8 * bases.len() <= usize::MAX,
    ensures
        stably_ranked(ranking@, spec_color_sweep(bases@)),
        ascending(ranking@),
        ranking.len() == 8 * bases.len(),
{
    let sweep = color_sweep(bases);
    rank_stably(&sweep)
}

/// The ranking made from a whole palette holds the step between any two of
/// its colors.
pub proof fn lemma_color_ranking_reaches(
    ranking: Seq<ColorOffset>,
    scale: u64,
    from: ColorCoord,
    to: ColorCoord,
)
    requires
        valid_scale(scale),
        stably_ranked(ranking, spec_color_sweep(spec_color_bases(scale as int))),
        from.within(spec_color_axis_size(scale as int)),
        to.within(spec_color_axis_size(scale as int)),
    ensures
        ranking.contains(color_step(from, to)),
{
    lemma_sizes(scale);
    lemma_color_bases(scale);
    let axis = spec_color_axis_size(scale as int);
    let bases = spec_color_bases(scale as int);
    let sweep = spec_color_sweep(bases);
    let size = ColorCoord {
        r: flip(to.r - from.r, to.r < from.r) as u8,
        g: flip(to.g - from.g, to.g < from.g) as u8,
        b: flip(to.b - from.b, to.b < from.b) as u8,
    };
    assert(size.within(axis));
    let n = size.position(axis);
    assert(bases[n] == size);
    let variant: int = (if to.r < from.r { 4int } else { 0 }) + (if to.g < from.g { 2int } else { 0 })
        + (if to.b < from.b { 1int } else { 0 });
    let k = 8 * n + variant;
    assert(k / 8 == n && k % 8 == variant);
    assert(sweep[k] == color_variant(bases[k / 8], k % 8));
    assert(color_variant(size, variant) == color_step(from, to));
    assert(sweep.contains(color_step(from, to)));
    lemma_ranking_keeps_items(ranking, sweep, color_step(from, to));
}

/// One of the four ways to give signs to a move of `rows` rows and `cols`
/// columns. The two low bits of `variant` say what is negated: 2 for the
/// rows, 1 for the columns.
pub open spec fn location_variant(rows: int, cols: int, variant: int) -> LocationOffset {
    LocationOffset {
        rows: flip(rows, variant / 2 % 2 == 1) as i32,
        cols: flip(cols, variant % 2 == 1) as i32,
    }
}

/// Number of unsigned moves of the sweep: every row distance below `side`
/// with every column distance up to half of `side`.
pub open spec fn spec_sweep_count(side: int) -> int {
    side * (side / 2 + 1)
}

/// The moves before ranking. Move `n` of the sweep goes `n % side` rows and
/// `n / side` columns, and its four signed variants follow one another,
/// variant 0 first.
pub open spec fn spec_location_sweep(side: int) -> Seq<LocationOffset> {
    Seq::new(
        (4 * spec_sweep_count(side)) as nat,
        |k: int| location_variant((k / 4) % side, (k / 4) / side, k % 4),
    )
}

/// Lists the four signed variants of every move of the sweep.
fn location_sweep(side: usize) -> (sweep: Vec<LocationOffset>)
    requires
        0 < side <= 4096,
    ensures
        sweep@ == spec_location_sweep(side as int),
{
    assert(side * (side / 2 + 1) <= 4096 * 2049) by (nonlinear_arith)
        requires 0 < side <= 4096;
    let count: usize = side * (side / 2 + 1);
    let mut sweep: Vec<LocationOffset> = Vec::new();
    let mut n: usize = 0;
    while n < count
        invariant
            0 < side <= 4096,
            count == spec_sweep_count(side as int),
            n <= count,
            sweep.len() == 4 * n,
            forall|k: int|
                0 <= k < 4 * n ==> sweep[k] == location_variant(
                    (k / 4) % (side as int),
                    (k / 4) / (side as int),
                    k % 4,
                ),
        decreases count - n,
    {
        proof {
            lemma_multiply_divide_lt(n as int, side as int, side as int / 2 + 1);
        }
        let rows: i32 = (n % side) as i32;
        let cols: i32 = (n / side) as i32;
        sweep.push(LocationOffset { rows, cols });
        sweep.push(LocationOffset { rows, cols: -cols });
        sweep.push(LocationOffset { rows: -rows, cols });
        sweep.push(LocationOffset { rows: -rows, cols: -cols });
        n += 1;
    }
    assert(sweep@ =~= spec_location_sweep(side as int));
    sweep
}

/// Ranks the moves between cells: every row distance below the grid's side
/// with every column distance up to half the side, in all four sign
/// variants, ordered by squared length, moves of equal length in the order
/// of the sweep.
pub fn location_offsets(scale: u64) -> (ranking: Vec<LocationOffset>)
    requires
        valid_scale(scale),
    ensures
        stably_ranked(ranking@, spec_location_sweep(spec_grid_size(scale as int))),
        ascending(ranking@),
        ranking.len() == 4 * spec_sweep_count(spec_grid_size(scale as int)),
{
    proof {
        lemma_sizes(scale);
    }
    let sweep = location_sweep(grid_size(scale));
    rank_stably(&sweep)
}

/// From any cell of the grid the ranking holds a move to any other cell, and
/// to the cell itself.
pub proof fn lemma_location_ranking_reaches(
    ranking: Seq<LocationOffset>,
    side: int,
    from: Location,
    to: Location,
)
    requires
        0 < side <= 4096,
        stably_ranked(ranking, spec_location_sweep(side)),
        from.within(side),
        to.within(side),
    ensures
        exists|k: int|
            0 <= k < ranking.len() && spec_destination(from, #[trigger] ranking[k], side) == to,
{
    let sweep = spec_location_sweep(side);
    // Rows: go forward, wrapping if need be.
    let rows: int = if to.row >= from.row {
        to.row - from.row
    } else {
        to.row - from.row + side
    };
    // Columns: go the shorter way round.
    let ahead: int = if to.col >= from.col {
        to.col - from.col
    } else {
        to.col - from.col + side
    };
    let back = ahead > side / 2;
    let cols: int = if back {
        side - ahead
    } else {
        ahead
    };
    assert(0 <= rows < side && 0 <= cols <= side / 2);
    let n = cols * side + rows;
    lemma_fundamental_div_mod_converse(n, side, cols, rows);
    assert(0 <= n < side * (side / 2 + 1)) by (nonlinear_arith)
        requires
            0 <= rows < side,
            0 <= cols <= side / 2,
            n == cols * side + rows,
    ;
    let variant: int = if back {
        1
    } else {
        0
    };
    let j = 4 * n + variant;
    assert(j / 4 == n && j % 4 == variant);
    let offset = sweep[j];
    assert(offset == location_variant(rows, cols, variant));
    assert(offset.rows == rows);
    assert(offset.cols == if back {
        -cols
    } else {
        cols
    });
    // The move ends in `to`.
    if to.row >= from.row {
        lemma_small_mod(to.row as nat, side as nat);
    } else {
        lemma_fundamental_div_mod_converse(from.row + rows, side, 1, to.row as int);
    }
    if back {
        if to.col >= from.col {
            lemma_fundamental_div_mod_converse(from.col - cols, side, -1, to.col as int);
        } else {
            lemma_small_mod(to.col as nat, side as nat);
        }
    } else {
        if to.col >= from.col {
            lemma_small_mod(to.col as nat, side as nat);
        } else {
            lemma_fundamental_div_mod_converse(from.col + cols, side, 1, to.col as int);
        }
    }
    assert(spec_destination(from, offset, side) == to);
    assert(sweep.contains(offset));
    lemma_ranking_keeps_items(ranking, sweep, offset);
    let k = choose|k: int| 0 <= k < ranking.len() && ranking[k] == offset;
    assert(spec_destination(from, ranking[k], side) == to);
}

} // verus!
