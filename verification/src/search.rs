//! The two searches of a growth step: for the most similar color that is
//! already placed, and for the empty cells around it.

use vstd::prelude::*;
use crate::grid::{Grid, Pixel};
use crate::index::ColorIndex;
use crate::offsets::ColorOffset;
use crate::palette::ColorCoord;
use crate::torus::{destination, spec_destination, Location, LocationOffset};

verus! {

/// The least number from `from` up to, not including, `end` that passes
/// `pred`, if there is one.
pub open spec fn first_from(pred: spec_fn(int) -> bool, from: int, end: int) -> Option<int>
    decreases end - from,
{
    if from >= end {
        None
    } else if pred(from) {
        Some(from)
    } else {
        first_from(pred, from + 1, end)
    }
}

/// What `first_from` finds passes the test and nothing before it does; where
/// it finds nothing, nothing passes.
pub proof fn lemma_first_from(pred: spec_fn(int) -> bool, from: int, end: int)
    ensures
        match first_from(pred, from, end) {
            Some(k) => from <= k < end && pred(k) && forall|m: int| from <= m < k ==> !(#[trigger] pred(m)),
            None => forall|m: int| from <= m < end ==> !(#[trigger] pred(m)),
        },
    decreases end - from,
{
    if from < end && !pred(from) {
        lemma_first_from(pred, from + 1, end);
    }
}

/// Numbers that fail the test can be skipped.
pub proof fn lemma_first_from_skip(pred: spec_fn(int) -> bool, from: int, to: int, end: int)
    requires
        from <= to <= end,
        forall|m: int| from <= m < to ==> !(#[trigger] pred(m)),
    ensures
        first_from(pred, from, end) == first_from(pred, to, end),
    decreases to - from,
{
    if from < to {
        lemma_first_from_skip(pred, from + 1, to, end);
    }
}

/// The color that a step leads to, unless a level leaves `0..=255`.
pub open spec fn spec_step(color: ColorCoord, offset: ColorOffset) -> Option<ColorCoord> {
    let r = color.r + offset.r;
    let g = color.g + offset.g;
    let b = color.b + offset.b;
    if 0 <= r <= 255 && 0 <= g <= 255 && 0 <= b <= 255 {
        Some(ColorCoord { r: r as u8, g: g as u8, b: b as u8 })
    } else {
        None
    }
}

/// Takes a step from a color.
pub fn step(color: ColorCoord, offset: ColorOffset) -> (target: Option<ColorCoord>)
    ensures
        target == spec_step(color, offset),
{
    let r: i32 = color.r as i32 + offset.r as i32;
    let g: i32 = color.g as i32 + offset.g as i32;
    let b: i32 = color.b as i32 + offset.b as i32;
    if 0 <= r && r <= 255 && 0 <= g && g <= 255 && 0 <= b && b <= 255 {
        Some(ColorCoord { r: r as u8, g: g as u8, b: b as u8 })
    } else {
        None
    }
}

/// The test "step `k` of the ranking leads from `color` to a placed color".
pub open spec fn reaches_placed(
    index: Map<ColorCoord, Location>,
    ranking: Seq<ColorOffset>,
    color: ColorCoord,
) -> spec_fn(int) -> bool {
    |k: int|
        match spec_step(color, ranking[k]) {
            Some(target) => index.dom().contains(target),
            None => false,
        }
}

/// The cell of the placed color that the earliest step of the ranking leads
/// to from `color`; nothing if no step leads to a placed color.
pub open spec fn spec_most_similar(
    index: Map<ColorCoord, Location>,
    ranking: Seq<ColorOffset>,
    color: ColorCoord,
) -> Option<Location> {
    match first_from(reaches_placed(index, ranking, color), 0, ranking.len() as int) {
        Some(k) => Some(index[spec_step(color, ranking[k]).unwrap()]),
        None => None,
    }
}

/// Finds the most similar placed color: scans the ranked steps in order and
/// returns the cell of the first placed color that a step leads to, or
/// nothing if no step leads to one. A step is passed over if it leaves
/// `0..=255` on some axis; one that stays in that range but leaves the
/// lattice of the index is looked up and not found, so the tighter bound
/// would find the same color.
pub fn most_similar(index: &ColorIndex, ranking: &Vec<ColorOffset>, color: ColorCoord) -> (found:
    Option<Location>)
    requires
        index.wf(),
    ensures
        found == spec_most_similar(index@, ranking@, color),
{
    let ghost pred = reaches_placed(index@, ranking@, color);
    let mut k: usize = 0;
    while k < ranking.len()
        invariant
            index.wf(),
            k <= ranking.len(),
            pred == reaches_placed(index@, ranking@, color),
            forall|m: int| 0 <= m < k ==> !(#[trigger] pred(m)),
        decreases ranking.len() - k,
    {
        if let Some(target) = step(color, ranking[k]) {
            if let Some(loc) = index.get(target) {
                proof {
                    lemma_first_from_skip(pred, 0, k as int, ranking.len() as int);
                    assert(pred(k as int));
                }
                return Some(loc);
            }
        }
        assert(!pred(k as int));
        k += 1;
    }
    proof {
        lemma_first_from_skip(pred, 0, k as int, ranking.len() as int);
    }
    None
}

/// The test "move `k` of the ranking leads from `around` to an empty cell".
pub open spec fn leads_to_open(
    cells: Seq<Option<Pixel>>,
    side: int,
    ranking: Seq<LocationOffset>,
    around: Location,
) -> spec_fn(int) -> bool {
    |k: int| cells[spec_destination(around, ranking[k], side).flat(side)].is_none()
}

/// Finds the next candidate: the earliest move of the ranking, from place
/// `from` on, that leads from `around` to an empty cell; nothing if no such
/// move is left.
pub fn next_open(grid: &Grid, ranking: &Vec<LocationOffset>, around: Location, from: usize) -> (found:
    Option<usize>)
    requires
        grid.wf(),
        around.within(grid.spec_side()),
    ensures
        match found {
            Some(k) => first_from(
                leads_to_open(grid@, grid.spec_side(), ranking@, around),
                from as int,
                ranking.len() as int,
            ) == Some(k as int),
            None => first_from(
                leads_to_open(grid@, grid.spec_side(), ranking@, around),
                from as int,
                ranking.len() as int,
            ).is_none(),
        },
{
    let side = grid.side();
    let ghost pred = leads_to_open(grid@, grid.spec_side(), ranking@, around);
    let mut k: usize = from;
    while k < ranking.len()
        invariant
            grid.wf(),
            side == grid.spec_side(),
            around.within(side as int),
            from <= k,
            pred == leads_to_open(grid@, grid.spec_side(), ranking@, around),
            forall|m: int| from <= m < k ==> !(#[trigger] pred(m)),
        decreases ranking.len() - k,
    {
        let cell = destination(around, ranking[k], side);
        if grid.get(cell).is_none() {
            proof {
                lemma_first_from_skip(pred, from as int, k as int, ranking.len() as int);
                assert(pred(k as int));
            }
            return Some(k);
        }
        assert(!pred(k as int));
        k += 1;
    }
    proof {
        if from as int <= ranking.len() {
            lemma_first_from_skip(pred, from as int, ranking.len() as int, ranking.len() as int);
        }
    }
    None
}

} // verus!
