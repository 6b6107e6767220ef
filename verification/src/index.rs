//! The record of where each color was placed. An entry is made once and
//! stays as it is.

use vstd::prelude::*;
use crate::palette::{lemma_position, ColorCoord};
use crate::torus::Location;

verus! {

/// A map from the coordinates of one color lattice to cells.
pub struct ColorIndex {
    axis: usize,
    slots: Vec<Option<Location>>,
}

impl View for ColorIndex {
    type V = Map<ColorCoord, Location>;

    /// The entries made so far.
    closed spec fn view(&self) -> Map<ColorCoord, Location> {
        Map::new(
            |coord: ColorCoord|
                coord.within(self.axis as int) && self.slots@[coord.position(
                    self.axis as int,
                )].is_some(),
            |coord: ColorCoord| self.slots@[coord.position(self.axis as int)].unwrap(),
        )
    }
}

impl ColorIndex {
    /// Number of levels per axis of the lattice.
    pub closed spec fn spec_axis(&self) -> int {
        self.axis as int
    }

    /// There is room for every coordinate of the lattice, and for no other.
    pub closed spec fn wf(&self) -> bool {
        &&& 0 < self.axis <= 256
        &&& self.slots@.len() == self.axis * self.axis * self.axis
    }

    /// Makes an index without entries.
    pub fn new(axis: usize) -> (index: ColorIndex)
        requires
            0 < axis <= 256,
        ensures
            index.wf(),
            index.spec_axis() == axis,
            index@ == Map::<ColorCoord, Location>::empty(),
    {
        assert(axis * axis <= 256 * 256 && axis * axis * axis <= 256 * 256 * 256)
            by (nonlinear_arith)
            requires
                0 < axis <= 256,
        ;
        let count: usize = axis * axis * axis;
        let mut slots: Vec<Option<Location>> = Vec::with_capacity(count);
        let mut n: usize = 0;
        while n < count
            invariant
                n <= count,
                slots.len() == n,
                forall|i: int| 0 <= i < n ==> slots[i] == None::<Location>,
            decreases count - n,
        {
            slots.push(None);
            n += 1;
        }
        let index = ColorIndex { axis, slots };
        proof {
            assert forall|coord: ColorCoord| !(#[trigger] index@.dom().contains(coord)) by {
                if coord.within(axis as int) {
                    lemma_position(coord, axis as int);
                }
            }
            assert(index@ =~= Map::<ColorCoord, Location>::empty());
        }
        index
    }

    /// Place of a coordinate of the lattice among the slots.
    fn slot(&self, coord: ColorCoord) -> (place: usize)
        requires
            self.wf(),
            coord.within(self.axis as int),
        ensures
            place == coord.position(self.axis as int),
            place < self.slots.len(),
    {
        proof {
            lemma_position(coord, self.axis as int);
            assert(self.axis * self.axis <= 256 * 256) by (nonlinear_arith)
                requires
                    0 < self.axis <= 256,
            ;
        }
        let g: usize = coord.g as usize;
        let b: usize = coord.b as usize;
        assert(g + self.axis * b <= 256 * 256) by (nonlinear_arith)
            requires
                g < self.axis,
                b < self.axis,
                0 < self.axis <= 256,
        ;
        let upper: usize = g + self.axis * b;
        assert(self.axis * upper <= 256 * 256 * 256) by (nonlinear_arith)
            requires
                upper <= 256 * 256,
                0 < self.axis <= 256,
        ;
        coord.r as usize + self.axis * upper
    }

    /// Looks up where a color was placed.
    pub fn get(&self, coord: ColorCoord) -> (found: Option<Location>)
        requires
            self.wf(),
        ensures
            found == if self@.dom().contains(coord) {
                Some(self@[coord])
            } else {
                None
            },
    {
        if (coord.r as usize) < self.axis && (coord.g as usize) < self.axis && (coord.b as usize)
            < self.axis {
            let place = self.slot(coord);
            self.slots[place]
        } else {
            None
        }
    }

    /// Records where a color of the lattice was placed, unless it has an
    /// entry already, and says whether it did.
    pub fn insert(&mut self, coord: ColorCoord, loc: Location) -> (fresh: bool)
        requires
            old(self).wf(),
        ensures
            final(self).wf(),
            final(self).spec_axis() == old(self).spec_axis(),
            fresh == (coord.within(old(self).spec_axis()) && !old(self)@.dom().contains(coord)),
            final(self)@ == if fresh {
                old(self)@.insert(coord, loc)
            } else {
                old(self)@
            },
    {
        if (coord.r as usize) < self.axis && (coord.g as usize) < self.axis && (coord.b as usize)
            < self.axis {
            let place = self.slot(coord);
            if self.slots[place].is_none() {
                self.slots.set(place, Some(loc));
                proof {
                    let axis = self.axis as int;
                    assert forall|other: ColorCoord|
                        other.within(axis) && other != coord implies other.position(axis)
                        != coord.position(axis) by {
                        lemma_position(other, axis);
                        lemma_position(coord, axis);
                    }
                    assert forall|other: ColorCoord| other.within(axis) implies 0
                        <= #[trigger] other.position(axis) < axis * axis * axis by {
                        lemma_position(other, axis);
                    }
                    assert(self@ =~= old(self)@.insert(coord, loc));
                }
                true
            } else {
                false
            }
        } else {
            false
        }
    }
}

} // verus!
