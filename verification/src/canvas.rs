//! The pixel buffer that a finished grid is copied into.

use image::Rgb;
use image::RgbImage;
use vstd::prelude::*;
use crate::grid::{lemma_flat, Grid, Pixel};
use crate::palette::Color;
use crate::torus::Location;

verus! {

/// An `image::RgbImage`, held as it is. Of what is inside, the contracts
/// know the three names below and what the three calls are said to do to
/// them.
#[verifier::external_body]
pub struct Canvas {
    image: RgbImage,
}

/// The samples of the image's buffer, as `ImageBuffer::into_raw` hands them
/// out: three per pixel, rows one after another, so that the pixel in column
/// `x` of row `y` starts at `(y * width + x) * 3`.
pub uninterp spec fn canvas_samples(canvas: Canvas) -> Seq<u8>;

/// The width that the image was made with, as `ImageBuffer::width` gives it.
pub uninterp spec fn canvas_width(canvas: Canvas) -> nat;

/// The height that the image was made with, as `ImageBuffer::height` gives
/// it.
pub uninterp spec fn canvas_height(canvas: Canvas) -> nat;

/// Calls `ImageBuffer::new`. It works out the buffer's length as three times
/// the width, times the height, and panics when either product overflows;
/// otherwise it makes an image of that width and height whose buffer holds
/// that many zero samples.
#[verifier::external_body]
fn blank(width: u32, height: u32) -> (canvas: Canvas)
    requires
        3 * width <= usize::MAX,
        3 * width * height <= usize::MAX,
    ensures
        canvas_width(canvas) == width,
        canvas_height(canvas) == height,
        canvas_samples(canvas) == Seq::new((3 * width * height) as nat, |i: int| 0u8),
{
    Canvas { image: RgbImage::new(width, height) }
}

/// Calls `ImageBuffer::put_pixel`, which panics where `x` is not below the
/// width or `y` not below the height, and otherwise overwrites the three
/// samples of the pixel at `(x, y)` and leaves the rest as it is.
#[verifier::external_body]
fn put_pixel(canvas: &mut Canvas, x: u32, y: u32, color: Color)
    requires
        x < canvas_width(*old(canvas)),
        y < canvas_height(*old(canvas)),
    ensures
        canvas_width(*final(canvas)) == canvas_width(*old(canvas)),
        canvas_height(*final(canvas)) == canvas_height(*old(canvas)),
        canvas_samples(*final(canvas)) == canvas_samples(*old(canvas)).update(
            (y * canvas_width(*old(canvas)) + x) * 3,
            color.r,
        ).update((y * canvas_width(*old(canvas)) + x) * 3 + 1, color.g).update(
            (y * canvas_width(*old(canvas)) + x) * 3 + 2,
            color.b,
        ),
{
    canvas.image.put_pixel(x, y, Rgb([color.r, color.g, color.b]));
}

/// Calls `ImageBuffer::into_raw`, which hands out the buffer.
#[verifier::external_body]
fn into_raw(canvas: Canvas) -> (samples: Vec<u8>)
    ensures
        samples@ == canvas_samples(canvas),
{
    canvas.image.into_raw()
}

/// Where the three samples of a cell start: the cell's row is the pixel's x
/// and its column the pixel's y.
pub open spec fn sample_start(loc: Location, side: int) -> int {
    (loc.col * side + loc.row) * 3
}

/// The three samples from `start` on hold `color`.
pub open spec fn shows(samples: Seq<u8>, start: int, color: Color) -> bool {
    samples[start] == color.r && samples[start + 1] == color.g && samples[start + 2] == color.b
}

/// The color that a cell is drawn in: its pixel's color, or black where it is
/// empty.
pub open spec fn spec_shown(cell: Option<Pixel>) -> Color {
    match cell {
        Some(pixel) => pixel.color,
        None => Color { r: 0, g: 0, b: 0 },
    }
}

/// The cell `loc` comes before row `row`, column `col` when the grid is
/// walked row by row.
spec fn walked(loc: Location, row: int, col: int) -> bool {
    loc.row < row || (loc.row == row && loc.col < col)
}

/// The samples hold the grid as far as it is walked: a cell that the walk
/// has passed shows what it holds, and every other cell is still black.
spec fn drawn(grid: Grid, samples: Seq<u8>, row: int, col: int) -> bool {
    &&& samples.len() == 3 * grid.spec_side() * grid.spec_side()
    &&& forall|loc: Location| #[trigger]
        loc.within(grid.spec_side()) ==> shows(
            samples,
            sample_start(loc, grid.spec_side()),
            if walked(loc, row, col) {
                spec_shown(grid.at(loc))
            } else {
                Color { r: 0, g: 0, b: 0 }
            },
        )
}

/// Two cells of a grid have their samples apart.
proof fn lemma_samples_apart(a: Location, b: Location, side: int)
    requires
        0 < side,
        a.within(side),
        b.within(side),
        a != b,
    ensures
        sample_start(a, side) + 3 <= sample_start(b, side) || sample_start(b, side) + 3
            <= sample_start(a, side),
{
    let ta = Location { row: a.col, col: a.row };
    let tb = Location { row: b.col, col: b.row };
    lemma_flat(ta, side);
    lemma_flat(tb, side);
}

/// The samples of a cell of the grid lie in the buffer.
proof fn lemma_samples_inside(a: Location, side: int)
    requires
        0 < side,
        a.within(side),
    ensures
        0 <= sample_start(a, side),
        sample_start(a, side) + 3 <= 3 * side * side,
{
    let ta = Location { row: a.col, col: a.row };
    lemma_flat(ta, side);
    assert(3 * (side * side) == 3 * side * side) by (nonlinear_arith);
}

/// The walk moves on by one cell: once the samples show what the cell
/// `here` holds, and are elsewhere as they were, they hold the grid as far
/// as the cell after `here`.
proof fn lemma_walk_on(grid: Grid, before: Seq<u8>, after: Seq<u8>, here: Location)
    requires
        grid.wf(),
        here.within(grid.spec_side()),
        drawn(grid, before, here.row as int, here.col as int),
        after.len() == before.len(),
        shows(after, sample_start(here, grid.spec_side()), spec_shown(grid.at(here))),
        forall|i: int|
            0 <= i < before.len() && !(sample_start(here, grid.spec_side()) <= i < sample_start(
                here,
                grid.spec_side(),
            ) + 3) ==> after[i] == before[i],
    ensures
        drawn(grid, after, here.row as int, here.col + 1),
{
    let side = grid.spec_side();
    assert forall|loc: Location| #[trigger] loc.within(side) implies shows(
        after,
        sample_start(loc, side),
        if walked(loc, here.row as int, here.col + 1) {
            spec_shown(grid.at(loc))
        } else {
            Color { r: 0, g: 0, b: 0 }
        },
    ) by {
        lemma_samples_inside(loc, side);
        if loc != here {
            lemma_samples_apart(loc, here, side);
            assert(loc.row != here.row || loc.col != here.col);
            assert(walked(loc, here.row as int, here.col + 1) == walked(
                loc,
                here.row as int,
                here.col as int,
            ));
            assert(shows(
                before,
                sample_start(loc, side),
                if walked(loc, here.row as int, here.col as int) {
                    spec_shown(grid.at(loc))
                } else {
                    Color { r: 0, g: 0, b: 0 }
                },
            ));
        }
    }
}

/// Copies a grid into an image of the grid's size: a filled cell shows its
/// color, an empty cell stays black. The cell in row `row` and column `col`
/// becomes the pixel at `x = row`, `y = col`.
pub fn assemble(grid: &Grid) -> (canvas: Canvas)
    requires
        grid.wf(),
    ensures
        canvas_width(canvas) == grid.spec_side(),
        canvas_height(canvas) == grid.spec_side(),
        canvas_samples(canvas).len() == 3 * grid.spec_side() * grid.spec_side(),
        forall|loc: Location| #[trigger]
            loc.within(grid.spec_side()) ==> shows(
                canvas_samples(canvas),
                sample_start(loc, grid.spec_side()),
                spec_shown(grid.at(loc)),
            ),
{
    let side: usize = grid.side();
    assert(3 * side * side <= 3 * 4096 * 4096) by (nonlinear_arith)
        requires
            0 < side <= 4096,
    ;
    let mut canvas = blank(side as u32, side as u32);
    proof {
        assert forall|loc: Location| #[trigger] loc.within(side as int) implies shows(
            canvas_samples(canvas),
            sample_start(loc, side as int),
            Color { r: 0, g: 0, b: 0 },
        ) by {
            lemma_samples_inside(loc, side as int);
        }
    }
    let mut row: usize = 0;
    while row < side
        invariant
            grid.wf(),
            side == grid.spec_side(),
            row <= side,
            canvas_width(canvas) == side,
            canvas_height(canvas) == side,
            drawn(*grid, canvas_samples(canvas), row as int, 0),
        decreases side - row,
    {
        let mut col: usize = 0;
        while col < side
            invariant
                grid.wf(),
                side == grid.spec_side(),
                row < side,
                col <= side,
                canvas_width(canvas) == side,
                canvas_height(canvas) == side,
                drawn(*grid, canvas_samples(canvas), row as int, col as int),
            decreases side - col,
        {
            let here = Location { row, col };
            let ghost before = canvas_samples(canvas);
            proof {
                lemma_samples_inside(here, side as int);
            }
            if let Some(pixel) = grid.get(here) {
                put_pixel(&mut canvas, row as u32, col as u32, pixel.color);
            }
            proof {
                lemma_walk_on(*grid, before, canvas_samples(canvas), here);
            }
            col += 1;
        }
        proof {
            assert forall|loc: Location| #[trigger] loc.within(side as int) implies (walked(
                loc,
                row as int,
                side as int,
            ) <==> walked(loc, row + 1, 0)) by {}
        }
        row += 1;
    }
    canvas
}

impl Canvas {
    /// Hands out the samples of the image, three per pixel, row after row.
    pub fn into_samples(self) -> (samples: Vec<u8>)
        ensures
            samples@ == canvas_samples(self),
    {
        into_raw(self)
    }
}

} // verus!
