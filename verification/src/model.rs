//! The placement engine as mathematics: what a run is planned with, what it
//! has recorded so far, and how each reply of the driver changes the record.

use vstd::prelude::*;
use crate::grid::{occupied, Heading, Pixel};
use crate::offsets::{spec_color_sweep, spec_location_sweep, ColorOffset};
use crate::palette::{
    color_count, spec_color_axis_size, spec_color_bases, spec_color_count, spec_color_of,
    spec_grid_size, valid_scale, ColorCoord, MAX_SCALE,
};
use crate::ranking::stably_ranked;
use crate::search::{first_from, leads_to_open, reaches_placed, spec_step};
use crate::torus::{
    distance_squared, spec_destination, spec_distance_squared, Location, LocationOffset, MAX_SIDE,
};

verus! {

/// How seed cells are drawn.
#[derive(Clone, Copy, Debug, PartialEq, Eq, Structural)]
pub enum Spacing {
    /// Any cell will do, even one that an earlier seed took.
    Free,
    /// A cell will do if it is not too close to any earlier seed.
    Enforced,
}

/// The best candidate of a scan so far: the move at place `candidate` of the
/// ranking, which was given the cost `cost`.
#[derive(Clone, Copy, Debug, PartialEq, Eq, Structural)]
pub struct Best {
    pub cost: u64,
    pub candidate: usize,
}

/// What the engine is waiting for.
#[derive(Clone, Copy, Debug, PartialEq, Eq, Structural)]
pub enum Pending {
    /// A cell for the seed in turn.
    SeedLocation,
    /// A direction for the seed in turn, whose cell is `at`.
    SeedDirection { at: Location },
    /// A verdict on the move at place `candidate` of the ranking, which leads
    /// from the cell `neighbor`, of heading `inherited`, to an empty cell.
    Verdict { neighbor: Location, inherited: Heading, candidate: usize, best: Option<Best> },
    /// Nothing: every color is placed.
    Finished,
}

/// How a candidate lies to the inherited heading.
#[derive(Clone, Copy, Debug, PartialEq, Eq, Structural)]
pub enum Verdict {
    /// Within the spread: the candidate is taken at once.
    Accept,
    /// Outside the spread, at this cost: the cheapest candidate is taken once
    /// all are seen, the earliest of the cheapest if several cost the same.
    /// The engine compares costs as the unsigned integers they are handed in
    /// as. A driver that measures costs in another way must encode them so
    /// that the order is kept: a smaller number for a smaller cost, the same
    /// number for the same cost.
    Cost(u64),
}

/// What the driver has to do next.
#[derive(Clone, Copy, Debug, PartialEq, Eq, Structural)]
pub enum Request {
    /// Propose a cell for a seed.
    SeedLocation,
    /// Supply a direction for a seed.
    SeedDirection,
    /// Judge the move `offset` against the heading `inherited`.
    Verdict { inherited: Heading, offset: LocationOffset },
    /// Stop: every color is placed.
    Finished,
}

/// Why a run cannot be planned.
#[derive(Clone, Copy, Debug, PartialEq, Eq, Structural)]
pub enum ConfigError {
    /// A scale below 2 leaves a single level per axis, which cannot be spread
    /// over the channel.
    ScaleTooSmall,
    /// A scale above 16 needs more levels per axis than a byte can tell
    /// apart.
    ScaleTooLarge,
    /// Without a seed nothing can grow.
    NoSeeds,
    /// There are more seeds than colors.
    TooManySeeds,
}

/// The first fault of a configuration, if it has one.
pub open spec fn spec_check(scale: u64, num_seeds: usize) -> Option<ConfigError> {
    if scale < 2 {
        Some(ConfigError::ScaleTooSmall)
    } else if scale > MAX_SCALE {
        Some(ConfigError::ScaleTooLarge)
    } else if num_seeds == 0 {
        Some(ConfigError::NoSeeds)
    } else if num_seeds > spec_color_count(scale as int) {
        Some(ConfigError::TooManySeeds)
    } else {
        None
    }
}

/// Checks a configuration: the scale must lie in `2..=16` and the number of
/// seeds in `1..=scale⁶`.
pub fn check(scale: u64, num_seeds: usize) -> (checked: Result<(), ConfigError>)
    ensures
        checked == match spec_check(scale, num_seeds) {
            Some(fault) => Err::<(), ConfigError>(fault),
            None => Ok::<(), ConfigError>(()),
        },
{
    if scale < 2 {
        Err(ConfigError::ScaleTooSmall)
    } else if scale > MAX_SCALE {
        Err(ConfigError::ScaleTooLarge)
    } else if num_seeds == 0 {
        Err(ConfigError::NoSeeds)
    } else if num_seeds > color_count(scale) {
        Err(ConfigError::TooManySeeds)
    } else {
        Ok(())
    }
}

/// Two cells are too close for two of `num_seeds` seeds on a grid of side
/// `side`: their distance is below `side / (2 · √num_seeds)`.
pub open spec fn spec_too_close(a: Location, b: Location, side: int, num_seeds: int) -> bool {
    4 * num_seeds * spec_distance_squared(a, b, side) < side * side
}

/// Tests whether two cells are too close for two seeds. The distance is
/// measured around the edges of the grid where that is shorter, and compared
/// exactly, as `4 · num_seeds · distance² < side²`.
pub fn too_close(a: Location, b: Location, side: usize, num_seeds: usize) -> (close: bool)
    requires
        side <= MAX_SIDE,
        a.within(side as int),
        b.within(side as int),
    ensures
        close == spec_too_close(a, b, side as int, num_seeds as int),
{
    let d: u128 = distance_squared(a, b, side) as u128;
    let n: u128 = num_seeds as u128;
    let s: u128 = side as u128;
    assert(4 * n * d <= 4 * 0x1_0000_0000_0000_0000 * 0x80_0000 && s * s <= 4096 * 4096)
        by (nonlinear_arith)
        requires
            n <= 0x1_0000_0000_0000_0000,
            d <= 0x80_0000,
            s <= 4096,
    ;
    assert(4 * n <= 4 * 0x1_0000_0000_0000_0000);
    4 * n * d < s * s
}

/// What a run is planned with. None of it changes during the run.
pub struct Plan {
    pub scale: u64,
    /// The colors in the order in which they are placed.
    pub order: Seq<ColorCoord>,
    pub color_ranking: Seq<ColorOffset>,
    pub location_ranking: Seq<LocationOffset>,
    /// How many colors, from the first of the order on, are seeds.
    pub num_seeds: nat,
    pub spacing: Spacing,
}

/// What a run has recorded so far.
pub struct State {
    /// The cells of the grid, row after row.
    pub cells: Seq<Option<Pixel>>,
    /// Where each placed color went.
    pub index: Map<ColorCoord, Location>,
    /// Number of colors placed; the color in turn stands at this place of the
    /// order.
    pub cursor: nat,
    /// The cells of the seeds placed so far, in their order.
    pub seeds: Seq<Location>,
    /// Number of seeds whose cell had been taken by an earlier seed.
    pub collisions: nat,
    pub pending: Pending,
}

impl Plan {
    /// Side of the grid.
    pub open spec fn side(self) -> int {
        spec_grid_size(self.scale as int)
    }

    /// Levels per color axis.
    pub open spec fn axis(self) -> int {
        spec_color_axis_size(self.scale as int)
    }

    /// Number of colors, and of cells.
    pub open spec fn total(self) -> int {
        spec_color_count(self.scale as int)
    }

    /// The plan is sound: the order is a reordering of the whole palette, the
    /// rankings are those of the palette and of the grid, and there is at
    /// least one seed and no more seeds than colors.
    pub open spec fn wf(self) -> bool {
        &&& valid_scale(self.scale)
        &&& self.order.to_multiset() == spec_color_bases(self.scale as int).to_multiset()
        &&& stably_ranked(
            self.color_ranking,
            spec_color_sweep(spec_color_bases(self.scale as int)),
        )
        &&& stably_ranked(self.location_ranking, spec_location_sweep(self.side()))
        &&& 1 <= self.num_seeds <= self.total()
    }

    /// A cell can take the next seed: it lies on the grid and, where spacing
    /// is enforced, is not too close to any seed placed before.
    pub open spec fn acceptable(self, seeds: Seq<Location>, loc: Location) -> bool {
        &&& loc.within(self.side())
        &&& self.spacing == Spacing::Enforced ==> forall|i: int|
            0 <= i < seeds.len() ==> !spec_too_close(
                #[trigger] seeds[i],
                loc,
                self.side(),
                self.num_seeds as int,
            )
    }

    /// The test "move `k` of the ranking leads from `around` to an empty
    /// cell".
    pub open spec fn open_from(self, cells: Seq<Option<Pixel>>, around: Location) -> spec_fn(
        int,
    ) -> bool {
        leads_to_open(cells, self.side(), self.location_ranking, around)
    }

    /// What the engine waits for when `cursor` colors are placed: nothing if
    /// that is all of them, a cell for a seed if the color in turn is one,
    /// and else a verdict on the first candidate around the most similar
    /// placed color.
    pub open spec fn opening(
        self,
        cells: Seq<Option<Pixel>>,
        index: Map<ColorCoord, Location>,
        cursor: nat,
    ) -> Pending {
        if cursor >= self.total() {
            Pending::Finished
        } else if cursor < self.num_seeds {
            Pending::SeedLocation
        } else {
            let color = self.order[cursor as int];
            let step = first_from(
                reaches_placed(index, self.color_ranking, color),
                0,
                self.color_ranking.len() as int,
            ).unwrap();
            let neighbor = index[spec_step(color, self.color_ranking[step]).unwrap()];
            let inherited = cells[neighbor.flat(self.side())].unwrap().heading;
            let candidate = first_from(
                self.open_from(cells, neighbor),
                0,
                self.location_ranking.len() as int,
            ).unwrap();
            Pending::Verdict { neighbor, inherited, candidate: candidate as usize, best: None }
        }
    }

    /// The record after the color in turn is placed at `loc` with `heading`.
    /// The cell is filled unless it is filled already; the index gets its
    /// entry either way.
    pub open spec fn placed(self, state: State, loc: Location, heading: Heading) -> State {
        let color = self.order[state.cursor as int];
        let pixel = Pixel { color: spec_color_of(color, self.axis()), heading };
        let place = loc.flat(self.side());
        let fresh = state.cells[place].is_none();
        let cells = if fresh {
            state.cells.update(place, Some(pixel))
        } else {
            state.cells
        };
        let index = state.index.insert(color, loc);
        let cursor = state.cursor + 1;
        State {
            cells,
            index,
            cursor: cursor as nat,
            seeds: if state.cursor < self.num_seeds {
                state.seeds.push(loc)
            } else {
                state.seeds
            },
            collisions: if fresh {
                state.collisions
            } else {
                state.collisions + 1
            },
            pending: self.opening(cells, index, cursor as nat),
        }
    }

    /// The record after the cell `loc` is proposed for the seed in turn: if
    /// the engine waits for a cell and this one can take the seed, it waits
    /// for the seed's direction next; else nothing changes.
    pub open spec fn proposed(self, state: State, loc: Location) -> State {
        if state.pending == Pending::SeedLocation && self.acceptable(state.seeds, loc) {
            State { pending: Pending::SeedDirection { at: loc }, ..state }
        } else {
            state
        }
    }

    /// The record after a direction is supplied: if the engine waits for one,
    /// the seed in turn is placed with it; else nothing changes.
    pub open spec fn oriented(self, state: State, direction: u64) -> State {
        match state.pending {
            Pending::SeedDirection { at } => self.placed(state, at, Heading::Drawn(direction)),
            _ => state,
        }
    }

    /// The record after the color in turn goes where move `candidate` leads
    /// from `neighbor`, heading along that move.
    pub open spec fn settled(self, state: State, neighbor: Location, candidate: int) -> State {
        let offset = self.location_ranking[candidate];
        self.placed(state, spec_destination(neighbor, offset, self.side()), Heading::Along(offset))
    }

    /// The record after a verdict on the candidate in turn, if the engine
    /// waits for one. On `Accept` the color goes to the candidate. On a cost
    /// the candidate becomes the best if it is the first or cheaper than the
    /// best; then the scan goes on to the next move that leads to an empty
    /// cell, or, if none is left, the color goes to the best.
    pub open spec fn judged(self, state: State, verdict: Verdict) -> State {
        match state.pending {
            Pending::Verdict { neighbor, inherited, candidate, best } => match verdict {
                Verdict::Accept => self.settled(state, neighbor, candidate as int),
                Verdict::Cost(cost) => {
                    let best = spec_better(best, cost, candidate);
                    match first_from(
                        self.open_from(state.cells, neighbor),
                        candidate + 1,
                        self.location_ranking.len() as int,
                    ) {
                        Some(next) => State {
                            pending: Pending::Verdict {
                                neighbor,
                                inherited,
                                candidate: next as usize,
                                best: Some(best),
                            },
                            ..state
                        },
                        None => self.settled(state, neighbor, best.candidate as int),
                    }
                },
            },
            _ => state,
        }
    }

    /// What the driver has to do in a state.
    pub open spec fn request(self, state: State) -> Request {
        match state.pending {
            Pending::SeedLocation => Request::SeedLocation,
            Pending::SeedDirection { at } => Request::SeedDirection,
            Pending::Verdict { neighbor, inherited, candidate, best } => Request::Verdict {
                inherited,
                offset: self.location_ranking[candidate as int],
            },
            Pending::Finished => Request::Finished,
        }
    }

    /// Move `k` of the ranking leads from `around` to an empty cell.
    pub open spec fn opens(self, cells: Seq<Option<Pixel>>, around: Location, k: int) -> bool {
        self.open_from(cells, around)(k)
    }

    /// The move that a scan around `around` ends with when it stands before
    /// move `k` with `best` in hand and the verdict on move `m` is
    /// `verdicts(m)`: moves to filled cells are passed over, the first
    /// candidate that is accepted ends the scan, and at the end of the
    /// ranking the best candidate is left.
    pub open spec fn scan(
        self,
        cells: Seq<Option<Pixel>>,
        around: Location,
        verdicts: spec_fn(int) -> Verdict,
        k: int,
        best: Option<Best>,
    ) -> int
        decreases self.location_ranking.len() - k,
    {
        if k >= self.location_ranking.len() {
            match best {
                Some(b) => b.candidate as int,
                None => k,
            }
        } else if !self.opens(cells, around, k) {
            self.scan(cells, around, verdicts, k + 1, best)
        } else {
            match verdicts(k) {
                Verdict::Accept => k,
                Verdict::Cost(cost) => self.scan(
                    cells,
                    around,
                    verdicts,
                    k + 1,
                    Some(spec_better(best, cost, k as usize)),
                ),
            }
        }
    }

    /// Move `chosen` is the one that growth around `around` has to take
    /// under `verdicts`: it leads to an empty cell, and either it is the
    /// earliest such move that is accepted, or no such move is accepted and
    /// it is the cheapest of them, the earliest of the cheapest.
    pub open spec fn is_choice(
        self,
        cells: Seq<Option<Pixel>>,
        around: Location,
        verdicts: spec_fn(int) -> Verdict,
        chosen: int,
    ) -> bool {
        &&& 0 <= chosen < self.location_ranking.len()
        &&& self.opens(cells, around, chosen)
        &&& match verdicts(chosen) {
            Verdict::Accept => forall|m: int|
                0 <= m < chosen && #[trigger] self.opens(cells, around, m) ==> verdicts(m) is Cost,
            Verdict::Cost(cost) => forall|m: int|
                0 <= m < self.location_ranking.len() && #[trigger] self.opens(cells, around, m)
                    ==> match verdicts(m) {
                    Verdict::Cost(other) => cost < other || (cost == other && chosen <= m),
                    Verdict::Accept => false,
                },
        }
    }

    /// A bound on the replies that are still due before the run is finished:
    /// every color not yet placed may take a reply for each move of the
    /// ranking and two more, less what the color in turn has used up.
    pub open spec fn work(self, state: State) -> int {
        let turn = self.location_ranking.len() + 2;
        (self.total() - state.cursor) * turn - match state.pending {
            Pending::SeedLocation => 0,
            Pending::SeedDirection { at } => 1,
            Pending::Verdict { neighbor, inherited, candidate, best } => candidate + 2,
            Pending::Finished => 0,
        }
    }

    /// The records that hold of every run, whatever the engine waits for.
    pub open spec fn records(self, state: State) -> bool {
        &&& state.cells.len() == self.total()
        &&& state.cursor <= self.total()
        &&& state.seeds.len() == if state.cursor <= self.num_seeds {
            state.cursor
        } else {
            self.num_seeds
        }
        // The seeds are the first colors of the order, each indexed at its cell.
        &&& forall|k: int|
            0 <= k < state.seeds.len() ==> (#[trigger] state.seeds[k]).within(self.side())
                && state.index[self.order[k]] == state.seeds[k]
        // The index holds the colors placed so far and no other.
        &&& forall|k: int|
            0 <= k < self.order.len() ==> (state.index.dom().contains(#[trigger] self.order[k])
                <==> k < state.cursor)
        &&& forall|c: ColorCoord| #[trigger]
            state.index.dom().contains(c) ==> self.order.contains(c)
        // Every indexed cell is filled.
        &&& forall|k: int|
            0 <= k < state.cursor ==> (#[trigger] state.index[self.order[k]]).within(self.side())
                && state.cells[state.index[self.order[k]].flat(self.side())].is_some()
        // Every filled cell is indexed.
        &&& forall|i: int|
            0 <= i < state.cells.len() && (#[trigger] state.cells[i]).is_some() ==> exists|k: int|
                0 <= k < state.cursor && (#[trigger] state.index[self.order[k]]).flat(self.side())
                    == i
        &&& occupied(state.cells) + state.collisions == state.cursor
        // Without collisions every color shows in its cell.
        &&& state.collisions == 0 ==> forall|k: int|
            0 <= k < state.cursor ==> state.cells[(#[trigger] state.index[self.order[k]]).flat(
                self.side(),
            )].unwrap().color == spec_color_of(self.order[k], self.axis())
        // Enforced spacing keeps the seeds apart.
        &&& self.spacing == Spacing::Enforced ==> state.collisions == 0 && forall|a: int, b: int|
            0 <= a < b < state.seeds.len() ==> !spec_too_close(
                #[trigger] state.seeds[a],
                #[trigger] state.seeds[b],
                self.side(),
                self.num_seeds as int,
            )
    }

    /// What the engine waits for fits what is recorded.
    pub open spec fn expects(self, state: State) -> bool {
        match state.pending {
            Pending::SeedLocation => state.cursor < self.num_seeds,
            Pending::SeedDirection { at } => state.cursor < self.num_seeds && self.acceptable(
                state.seeds,
                at,
            ),
            Pending::Verdict { neighbor, inherited, candidate, best } => {
                &&& self.num_seeds <= state.cursor < self.total()
                &&& neighbor.within(self.side())
                &&& candidate < self.location_ranking.len()
                &&& self.open_from(state.cells, neighbor)(candidate as int)
                &&& match best {
                    Some(b) => b.candidate < candidate && self.open_from(state.cells, neighbor)(
                        b.candidate as int,
                    ),
                    None => true,
                }
            },
            Pending::Finished => state.cursor == self.total(),
        }
    }

    /// The record is one that a run of this plan can reach.
    pub open spec fn admits(self, state: State) -> bool {
        self.records(state) && self.expects(state)
    }
}

/// The better of the best so far and a candidate of cost `cost`: the
/// candidate if it is the first or strictly cheaper, else the best so far.
pub open spec fn spec_better(best: Option<Best>, cost: u64, candidate: usize) -> Best {
    match best {
        Some(b) => if cost < b.cost {
            Best { cost, candidate }
        } else {
            b
        },
        None => Best { cost, candidate },
    }
}

/// Keeps the better of the best so far and a new candidate.
pub fn better(best: Option<Best>, cost: u64, candidate: usize) -> (kept: Best)
    ensures
        kept == spec_better(best, cost, candidate),
{
    match best {
        Some(b) => if cost < b.cost {
            Best { cost, candidate }
        } else {
            b
        },
        None => Best { cost, candidate },
    }
}

} // verus!
