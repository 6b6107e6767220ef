//! The placement engine: it keeps the record of a run and moves it on with
//! each reply of its driver.

use rand::rngs::StdRng;
use vstd::prelude::*;
use crate::grid::{Grid, Heading, Pixel};
use crate::index::ColorIndex;
use crate::invariants::{
    lemma_candidate_found, lemma_initial, lemma_judged, lemma_neighbor_found, lemma_opening,
    lemma_order, lemma_placed_records, spec_initial,
};
use crate::model::{
    better, check, spec_check, spec_too_close, too_close, ConfigError, Pending, Plan, Request, Spacing, State,
    Verdict,
};
use crate::offsets::{color_offsets, location_offsets, ColorOffset};
use crate::palette::{
    color_axis_size, color_base_to_color, color_bases, color_count, grid_size, lemma_sizes,
    ColorCoord,
};
use crate::random::{draw_below, seeded, shuffle};
use crate::search::{most_similar, next_open};
use crate::torus::{destination, Location, LocationOffset};

verus! {

/// A run in progress.
pub struct Engine {
    scale: u64,
    side: usize,
    axis: u64,
    total: usize,
    order: Vec<ColorCoord>,
    color_ranking: Vec<ColorOffset>,
    location_ranking: Vec<LocationOffset>,
    num_seeds: usize,
    spacing: Spacing,
    grid: Grid,
    index: ColorIndex,
    cursor: usize,
    seeds: Vec<Location>,
    collisions: usize,
    pending: Pending,
}

impl Engine {
    /// What the run was planned with: the part of the engine that no reply
    /// changes. The sizes that the engine keeps at hand are those of this
    /// plan, as `wf` demands.
    pub closed spec fn plan(&self) -> Plan {
        Plan {
            scale: self.scale,
            order: self.order@,
            color_ranking: self.color_ranking@,
            location_ranking: self.location_ranking@,
            num_seeds: self.num_seeds as nat,
            spacing: self.spacing,
        }
    }

    /// What the run has recorded: the part of the engine that replies
    /// change. With `plan` it covers all that the engine holds.
    pub closed spec fn state(&self) -> State {
        State {
            cells: self.grid@,
            index: self.index@,
            cursor: self.cursor as nat,
            seeds: self.seeds@,
            collisions: self.collisions as nat,
            pending: self.pending,
        }
    }

    /// The parts fit together and the records are sound, whatever the engine
    /// waits for.
    closed spec fn sound(&self) -> bool {
        &&& self.plan().wf()
        &&& self.plan().records(self.state())
        &&& self.side == self.plan().side()
        &&& self.axis == self.plan().axis()
        &&& self.total == self.plan().total()
        &&& self.grid.wf()
        &&& self.grid.spec_side() == self.side
        &&& self.index.wf()
        &&& self.index.spec_axis() == self.axis
    }

    /// The engine holds a sound plan and a record that a run of it can
    /// reach.
    pub closed spec fn wf(&self) -> bool {
        self.sound() && self.plan().expects(self.state())
    }

    /// What a well-formed engine holds.
    pub proof fn lemma_wf(&self)
        requires
            self.wf(),
        ensures
            self.plan().wf(),
            self.plan().admits(self.state()),
    {
    }

    /// Plans a run and makes the generator that its random choices come
    /// from: checks the configuration, enumerates the palette, ranks the
    /// steps and the moves, and shuffles the palette into the order of
    /// placement. Nothing is placed yet.
    pub fn new(scale: u64, num_seeds: usize, spacing: Spacing, seed: u64) -> (made: Result<
        (Engine, StdRng),
        ConfigError,
    >)
        ensures
            match made {
                Ok((engine, rng)) => {
                    &&& spec_check(scale, num_seeds).is_none()
                    &&& engine.wf()
                    &&& engine.plan().wf()
                    &&& engine.plan().scale == scale
                    &&& engine.plan().num_seeds == num_seeds
                    &&& engine.plan().spacing == spacing
                    &&& engine.state() == spec_initial(engine.plan())
                },
                Err(fault) => spec_check(scale, num_seeds) == Some(fault),
            },
    {
        match check(scale, num_seeds) {
            Err(fault) => Err(fault),
            Ok(()) => {
                proof {
                    lemma_sizes(scale);
                }
                let side = grid_size(scale);
                let axis = color_axis_size(scale);
                let total = color_count(scale);
                let bases = color_bases(scale);
                let color_ranking = color_offsets(&bases);
                let location_ranking = location_offsets(scale);
                let mut rng = seeded(seed);
                let mut order = bases;
                shuffle(&mut order, &mut rng);
                let grid = Grid::new(side);
                let index = ColorIndex::new(axis as usize);
                let engine = Engine {
                    scale,
                    side,
                    axis,
                    total,
                    order,
                    color_ranking,
                    location_ranking,
                    num_seeds,
                    spacing,
                    grid,
                    index,
                    cursor: 0,
                    seeds: Vec::new(),
                    collisions: 0,
                    pending: Pending::SeedLocation,
                };
                proof {
                    assert(engine.state() =~= spec_initial(engine.plan()));
                    lemma_initial(engine.plan());
                }
                Ok((engine, rng))
            },
        }
    }

    /// Says what the driver has to do next.
    pub fn request(&self) -> (request: Request)
        requires
            self.wf(),
        ensures
            request == self.plan().request(self.state()),
    {
        match self.pending {
            Pending::SeedLocation => Request::SeedLocation,
            Pending::SeedDirection { at } => Request::SeedDirection,
            Pending::Verdict { neighbor, inherited, candidate, best } => Request::Verdict {
                inherited,
                offset: self.location_ranking[candidate],
            },
            Pending::Finished => Request::Finished,
        }
    }

    /// Tests whether a cell can take the next seed.
    fn acceptable(&self, loc: Location) -> (fits: bool)
        requires
            self.sound(),
        ensures
            fits == self.plan().acceptable(self.state().seeds, loc),
    {
        proof {
            lemma_order(self.plan());
        }
        if !(loc.row < self.side && loc.col < self.side) {
            return false;
        }
        match self.spacing {
            Spacing::Free => true,
            Spacing::Enforced => {
                let mut i: usize = 0;
                while i < self.seeds.len()
                    invariant
                        self.sound(),
                        self.spacing == Spacing::Enforced,
                        0 < self.side <= 4096,
                        loc.within(self.side as int),
                        i <= self.seeds.len(),
                        forall|j: int|
                            0 <= j < i ==> !spec_too_close(
                                #[trigger] self.seeds@[j],
                                loc,
                                self.side as int,
                                self.num_seeds as int,
                            ),
                    decreases self.seeds.len() - i,
                {
                    assert(self.seeds@[i as int].within(self.side as int));
                    if too_close(self.seeds[i], loc, self.side, self.num_seeds) {
                        return false;
                    }
                    i += 1;
                }
                true
            },
        }
    }

    /// Works out what to wait for once the records are up to date.
    fn opening(&self) -> (pending: Pending)
        requires
            self.sound(),
        ensures
            pending == self.plan().opening(
                self.state().cells,
                self.state().index,
                self.state().cursor,
            ),
    {
        proof {
            lemma_order(self.plan());
        }
        if self.cursor >= self.total {
            Pending::Finished
        } else if self.cursor < self.num_seeds {
            Pending::SeedLocation
        } else {
            let color = self.order[self.cursor];
            proof {
                lemma_neighbor_found(self.plan(), self.state());
            }
            let neighbor = most_similar(&self.index, &self.color_ranking, color).unwrap();
            let inherited = self.grid.get(neighbor).unwrap().heading;
            proof {
                lemma_candidate_found(self.plan(), self.state(), neighbor);
            }
            let candidate = next_open(&self.grid, &self.location_ranking, neighbor, 0).unwrap();
            Pending::Verdict { neighbor, inherited, candidate, best: None }
        }
    }

    /// Places the color in turn and works out what to wait for next.
    fn place(&mut self, loc: Location, heading: Heading)
        requires
            old(self).sound(),
            old(self).cursor < old(self).total,
            loc.within(old(self).side as int),
            old(self).cursor >= old(self).num_seeds ==> old(self).grid.at(loc).is_none(),
            old(self).cursor < old(self).num_seeds ==> old(self).plan().acceptable(
                old(self).state().seeds,
                loc,
            ),
        ensures
            final(self).wf(),
            final(self).plan() == old(self).plan(),
            final(self).state() == old(self).plan().placed(old(self).state(), loc, heading),
    {
        proof {
            lemma_order(self.plan());
            lemma_placed_records(self.plan(), self.state(), loc, heading);
        }
        let ghost plan = self.plan();
        let ghost before = self.state();
        let ghost after = plan.placed(before, loc, heading);
        let color = self.order[self.cursor];
        let pixel = Pixel { color: color_base_to_color(color, self.axis), heading };
        let fresh = self.grid.put(loc, pixel);
        let inserted = self.index.insert(color, loc);
        assert(inserted);
        if self.cursor < self.num_seeds {
            self.seeds.push(loc);
        }
        if !fresh {
            self.collisions = self.collisions + 1;
        }
        self.cursor = self.cursor + 1;
        proof {
            assert(self.plan() == plan);
            assert(self.state().cells == after.cells);
            assert(self.state().index == after.index);
            assert(self.state().seeds == after.seeds);
            assert(self.state().collisions == after.collisions);
            assert(self.state().cursor == after.cursor);
            assert(plan.records(State { pending: self.pending, ..after }));
            assert(self.state() == State { pending: self.pending, ..after });
        }
        let pending = self.opening();
        self.pending = pending;
        proof {
            assert(self.state() == after);
            lemma_opening(plan, after);
        }
    }

    /// Proposes a cell for the seed in turn and says whether it was taken.
    /// It is taken if the engine waits for one, the cell lies on the grid
    /// and, under enforced spacing, is not too close to an earlier seed; the
    /// engine then waits for the seed's direction. Else nothing changes.
    pub fn propose_seed(&mut self, loc: Location) -> (taken: bool)
        requires
            old(self).wf(),
        ensures
            final(self).wf(),
            final(self).plan() == old(self).plan(),
            final(self).state() == old(self).plan().proposed(old(self).state(), loc),
            taken == (old(self).state().pending == Pending::SeedLocation && old(
                self,
            ).plan().acceptable(old(self).state().seeds, loc)),
    {
        match self.pending {
            Pending::SeedLocation => {
                if self.acceptable(loc) {
                    self.pending = Pending::SeedDirection { at: loc };
                    true
                } else {
                    false
                }
            },
            _ => false,
        }
    }

    /// Draws a cell for the seed in turn, row first, and proposes it. Where
    /// the engine does not wait for a cell, nothing is drawn.
    pub fn locate_seed(&mut self, rng: &mut StdRng) -> (taken: bool)
        requires
            old(self).wf(),
        ensures
            final(self).wf(),
            final(self).plan() == old(self).plan(),
            exists|loc: Location|
                loc.within(old(self).plan().side()) && final(self).state() == old(
                    self,
                ).plan().proposed(old(self).state(), loc) && taken == (old(self).state().pending
                    == Pending::SeedLocation && old(self).plan().acceptable(
                    old(self).state().seeds,
                    loc,
                )),
    {
        proof {
            lemma_order(self.plan());
        }
        match self.pending {
            Pending::SeedLocation => {
                let row = draw_below(rng, self.side);
                let col = draw_below(rng, self.side);
                let loc = Location { row, col };
                let taken = self.propose_seed(loc);
                assert(loc.within(old(self).plan().side()));
                taken
            },
            _ => {
                assert((Location { row: 0, col: 0 }).within(old(self).plan().side()));
                false
            },
        }
    }

    /// Supplies the direction of the seed in turn and says whether the seed
    /// was placed with it: it is if the engine waits for a direction. The
    /// seed's cell is filled unless an earlier seed fills it already. Else
    /// nothing changes.
    pub fn orient_seed(&mut self, direction: u64) -> (placed: bool)
        requires
            old(self).wf(),
        ensures
            final(self).wf(),
            final(self).plan() == old(self).plan(),
            final(self).state() == old(self).plan().oriented(old(self).state(), direction),
            placed == (old(self).state().pending is SeedDirection),
    {
        match self.pending {
            Pending::SeedDirection { at } => {
                proof {
                    lemma_order(self.plan());
                }
                self.place(at, Heading::Drawn(direction));
                true
            },
            _ => false,
        }
    }

    /// Takes the verdict on the candidate in turn and says whether one was
    /// due. On `Accept` the color in turn is placed in the candidate's cell,
    /// heading along the candidate's move. On a cost the candidate is kept
    /// if it is the best so far, and the scan moves to the next candidate;
    /// when none is left the color is placed in the best candidate's cell.
    pub fn judge(&mut self, verdict: Verdict) -> (due: bool)
        requires
            old(self).wf(),
        ensures
            final(self).wf(),
            final(self).plan() == old(self).plan(),
            final(self).state() == old(self).plan().judged(old(self).state(), verdict),
            due == (old(self).state().pending is Verdict),
    {
        proof {
            lemma_order(self.plan());
        }
        match self.pending {
            Pending::Verdict { neighbor, inherited, candidate, best } => {
                match verdict {
                    Verdict::Accept => {
                        self.settle(neighbor, candidate);
                    },
                    Verdict::Cost(cost) => {
                        let kept = better(best, cost, candidate);
                        match next_open(&self.grid, &self.location_ranking, neighbor, candidate + 1) {
                            Some(next) => {
                                self.pending = Pending::Verdict {
                                    neighbor,
                                    inherited,
                                    candidate: next,
                                    best: Some(kept),
                                };
                                proof {
                                    lemma_judged(old(self).plan(), old(self).state(), verdict);
                                }
                            },
                            None => {
                                self.settle(neighbor, kept.candidate);
                            },
                        }
                    },
                }
                true
            },
            _ => false,
        }
    }

    /// Places the color in turn where a move leads from its neighbor.
    fn settle(&mut self, neighbor: Location, candidate: usize)
        requires
            old(self).sound(),
            old(self).num_seeds <= old(self).cursor < old(self).total,
            neighbor.within(old(self).side as int),
            candidate < old(self).location_ranking.len(),
            old(self).plan().open_from(old(self).state().cells, neighbor)(candidate as int),
        ensures
            final(self).wf(),
            final(self).plan() == old(self).plan(),
            final(self).state() == old(self).plan().settled(
                old(self).state(),
                neighbor,
                candidate as int,
            ),
    {
        proof {
            lemma_order(self.plan());
        }
        let offset = self.location_ranking[candidate];
        let loc = destination(neighbor, offset, self.side);
        self.place(loc, Heading::Along(offset));
    }

    /// The grid as it stands.
    pub fn grid(&self) -> (grid: &Grid)
        requires
            self.wf(),
        ensures
            grid@ == self.state().cells,
            grid.wf(),
            grid.spec_side() == self.plan().side(),
    {
        &self.grid
    }

    /// The index as it stands.
    pub fn index(&self) -> (index: &ColorIndex)
        requires
            self.wf(),
        ensures
            index@ == self.state().index,
            index.wf(),
            index.spec_axis() == self.plan().axis(),
    {
        &self.index
    }

    /// The order in which the colors are placed.
    pub fn order(&self) -> (order: &Vec<ColorCoord>)
        ensures
            order@ == self.plan().order,
    {
        &self.order
    }

    /// The ranked steps between colors.
    pub fn color_ranking(&self) -> (ranking: &Vec<ColorOffset>)
        ensures
            ranking@ == self.plan().color_ranking,
    {
        &self.color_ranking
    }

    /// The ranked moves between cells.
    pub fn location_ranking(&self) -> (ranking: &Vec<LocationOffset>)
        ensures
            ranking@ == self.plan().location_ranking,
    {
        &self.location_ranking
    }

    /// The cells of the seeds placed so far.
    pub fn seeds(&self) -> (seeds: &Vec<Location>)
        ensures
            seeds@ == self.state().seeds,
    {
        &self.seeds
    }

    /// Number of colors placed so far.
    pub fn placed(&self) -> (count: usize)
        ensures
            count == self.state().cursor,
    {
        self.cursor
    }

    /// Number of seeds that found their cell taken.
    pub fn collisions(&self) -> (count: usize)
        ensures
            count == self.state().collisions,
    {
        self.collisions
    }

    /// What the engine is waiting for.
    pub fn pending(&self) -> (pending: Pending)
        ensures
            pending == self.state().pending,
    {
        self.pending
    }
}

} // verus!
