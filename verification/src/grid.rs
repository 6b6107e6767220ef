//! The grid of placed pixels. A cell is filled at most once.

use vstd::prelude::*;
use vstd::arithmetic::div_mod::{lemma_fundamental_div_mod, lemma_fundamental_div_mod_converse};
use crate::palette::Color;
use crate::torus::{Location, LocationOffset, MAX_SIDE};

verus! {

/// The way along which a branch of colors grows.
#[derive(Clone, Copy, Debug, PartialEq, Eq, Hash, Structural)]
pub enum Heading {
    /// An angle drawn for a seed, carried as the bits of its number.
    Drawn(u64),
    /// The angle of a move: that of the point `cols` to the right and `rows`
    /// up, seen from the origin.
    Along(LocationOffset),
}

/// A placed color with the heading of its branch.
#[derive(Clone, Copy, Debug, PartialEq, Eq, Hash, Structural)]
pub struct Pixel {
    pub color: Color,
    pub heading: Heading,
}

/// Number of filled cells.
pub open spec fn occupied(cells: Seq<Option<Pixel>>) -> nat
    decreases cells.len(),
{
    if cells.len() == 0 {
        0
    } else {
        occupied(cells.drop_last()) + if cells.last().is_some() {
            1nat
        } else {
            0nat
        }
    }
}

/// There are no more filled cells than cells, and while there are fewer, some
/// cell is empty.
pub proof fn lemma_occupied_bound(cells: Seq<Option<Pixel>>)
    ensures
        occupied(cells) <= cells.len(),
        occupied(cells) < cells.len() ==> exists|i: int|
            0 <= i < cells.len() && (#[trigger] cells[i]).is_none(),
        occupied(cells) == cells.len() ==> forall|i: int|
            0 <= i < cells.len() ==> (#[trigger] cells[i]).is_some(),
    decreases cells.len(),
{
    if cells.len() > 0 {
        let front = cells.drop_last();
        lemma_occupied_bound(front);
        if occupied(cells) < cells.len() {
            if cells.last().is_none() {
                assert(cells[cells.len() - 1].is_none());
            } else {
                let i = choose|i: int| 0 <= i < front.len() && (#[trigger] front[i]).is_none();
                assert(cells[i].is_none());
            }
        }
        if occupied(cells) == cells.len() {
            assert forall|i: int| 0 <= i < cells.len() implies (#[trigger] cells[i]).is_some() by {
                if i < front.len() {
                    assert(front[i].is_some());
                }
            }
        }
    }
}

/// A grid without a filled cell counts zero.
pub proof fn lemma_occupied_none(cells: Seq<Option<Pixel>>)
    requires
        forall|i: int| 0 <= i < cells.len() ==> (#[trigger] cells[i]).is_none(),
    ensures
        occupied(cells) == 0,
    decreases cells.len(),
{
    if cells.len() > 0 {
        let front = cells.drop_last();
        assert forall|i: int| 0 <= i < front.len() implies (#[trigger] front[i]).is_none() by {
            assert(cells[i].is_none());
        }
        lemma_occupied_none(front);
    }
}

/// Filling an empty cell raises the count by one.
pub proof fn lemma_occupied_fill(cells: Seq<Option<Pixel>>, i: int, pixel: Pixel)
    requires
        0 <= i < cells.len(),
        cells[i].is_none(),
    ensures
        occupied(cells.update(i, Some(pixel))) == occupied(cells) + 1,
    decreases cells.len(),
{
    let filled = cells.update(i, Some(pixel));
    if i == cells.len() - 1 {
        assert(filled.drop_last() =~= cells.drop_last());
    } else {
        assert(filled.drop_last() =~= cells.drop_last().update(i, Some(pixel)));
        lemma_occupied_fill(cells.drop_last(), i, pixel);
    }
}

/// A cell of the grid has a place of its own when the rows are laid one after
/// another: the place gives back the row and the column.
pub proof fn lemma_flat(loc: Location, side: int)
    requires
        0 < side,
        loc.within(side),
    ensures
        0 <= loc.flat(side) < side * side,
        loc.flat(side) / side == loc.row,
        loc.flat(side) % side == loc.col,
{
    let row = loc.row as int;
    let col = loc.col as int;
    assert(0 <= row * side + col < side * side) by (nonlinear_arith)
        requires
            0 <= row < side,
            0 <= col < side,
    ;
    lemma_fundamental_div_mod_converse(row * side + col, side, row, col);
}

/// The cell at a place of the grid.
pub open spec fn cell_at(place: int, side: int) -> Location {
    Location { row: (place / side) as usize, col: (place % side) as usize }
}

/// Every place below `side²` is the place of a cell of the grid.
pub proof fn lemma_cell_at(place: int, side: int)
    requires
        0 < side <= MAX_SIDE,
        0 <= place < side * side,
    ensures
        cell_at(place, side).within(side),
        cell_at(place, side).flat(side) == place,
{
    lemma_fundamental_div_mod(place, side);
    let q = place / side;
    let r = place % side;
    assert(0 <= r < side) by (nonlinear_arith)
        requires
            0 < side,
            r == place % side,
    ;
    assert(0 <= q < side) by (nonlinear_arith)
        requires
            0 <= place < side * side,
            0 < side,
            place == side * q + r,
            0 <= r < side,
    ;
    assert(q * side + r == place) by (nonlinear_arith)
        requires
            place == side * q + r,
    ;
}

/// A square grid of cells, each empty or holding one pixel.
pub struct Grid {
    side: usize,
    cells: Vec<Option<Pixel>>,
}

impl View for Grid {
    type V = Seq<Option<Pixel>>;

    /// The cells, row after row. The side is not part of the view:
    /// `spec_side` gives it, and in a well-formed grid the view has the
    /// square of it as its length.
    closed spec fn view(&self) -> Seq<Option<Pixel>> {
        self.cells@
    }
}

impl Grid {
    /// The side of the grid.
    pub closed spec fn spec_side(&self) -> int {
        self.side as int
    }

    /// The grid has as many cells as its side demands.
    pub open spec fn wf(&self) -> bool {
        &&& 0 < self.spec_side() <= MAX_SIDE
        &&& self@.len() == self.spec_side() * self.spec_side()
    }

    /// What the cell at `loc` holds; nothing outside the grid.
    pub open spec fn at(&self, loc: Location) -> Option<Pixel> {
        if loc.within(self.spec_side()) {
            self@[loc.flat(self.spec_side())]
        } else {
            None
        }
    }

    /// Makes a grid of empty cells.
    pub fn new(side: usize) -> (grid: Grid)
        requires
            0 < side <= MAX_SIDE,
        ensures
            grid.wf(),
            grid.spec_side() == side,
            grid@ == Seq::new((side * side) as nat, |i: int| None::<Pixel>),
    {
        assert(side * side <= 4096 * 4096) by (nonlinear_arith)
            requires
                0 < side <= 4096,
        ;
        let count: usize = side * side;
        let mut cells: Vec<Option<Pixel>> = Vec::with_capacity(count);
        let mut n: usize = 0;
        while n < count
            invariant
                n <= count,
                cells.len() == n,
                forall|i: int| 0 <= i < n ==> cells[i] == None::<Pixel>,
            decreases count - n,
        {
            cells.push(None);
            n += 1;
        }
        assert(cells@ =~= Seq::new((side * side) as nat, |i: int| None::<Pixel>));
        Grid { side, cells }
    }

    /// Returns the side of the grid.
    pub fn side(&self) -> (side: usize)
        ensures
            side == self.spec_side(),
    {
        self.side
    }

    /// Reads the cell at `loc`.
    pub fn get(&self, loc: Location) -> (pixel: Option<Pixel>)
        requires
            self.wf(),
        ensures
            pixel == self.at(loc),
    {
        if loc.row < self.side && loc.col < self.side {
            proof {
                lemma_flat(loc, self.side as int);
                assert(loc.row * self.side <= 4096 * 4096) by (nonlinear_arith)
                    requires
                        loc.row < self.side <= 4096,
                ;
            }
            self.cells[loc.row * self.side + loc.col]
        } else {
            None
        }
    }

    /// Fills the cell at `loc` if it lies on the grid and is empty, and says
    /// whether it did. A filled cell is never changed.
    pub fn put(&mut self, loc: Location, pixel: Pixel) -> (fresh: bool)
        requires
            old(self).wf(),
        ensures
            final(self).wf(),
            final(self).spec_side() == old(self).spec_side(),
            fresh == (loc.within(old(self).spec_side()) && old(self).at(loc).is_none()),
            final(self)@ == if fresh {
                old(self)@.update(loc.flat(old(self).spec_side()), Some(pixel))
            } else {
                old(self)@
            },
    {
        if loc.row < self.side && loc.col < self.side {
            proof {
                lemma_flat(loc, self.side as int);
                assert(loc.row * self.side <= 4096 * 4096) by (nonlinear_arith)
                    requires
                        loc.row < self.side <= 4096,
                ;
            }
            let place: usize = loc.row * self.side + loc.col;
            if self.cells[place].is_none() {
                self.cells.set(place, Some(pixel));
                true
            } else {
                false
            }
        } else {
            false
        }
    }
}

} // verus!
