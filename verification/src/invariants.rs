//! Proofs that every step of a run keeps the record sound, and that growth
//! never gets stuck.

use vstd::prelude::*;
use vstd::arithmetic::div_mod::lemma_mod_bound;
use crate::grid::{
    cell_at, lemma_cell_at, lemma_flat, lemma_occupied_bound, lemma_occupied_fill,
    lemma_occupied_none, Heading, Pixel,
};
use crate::model::{spec_better, spec_too_close, Pending, Plan, Spacing, State, Verdict};
use crate::offsets::{
    color_step, lemma_color_ranking_reaches, lemma_location_ranking_reaches, spec_sweep_count,
};
use crate::palette::{lemma_color_bases, lemma_sizes, spec_color_bases, spec_color_of, ColorCoord};
use crate::search::{first_from, lemma_first_from, reaches_placed, spec_step};
use crate::torus::{spec_destination, spec_distance_squared, spec_gap, Location, LocationOffset};

verus! {

/// The order of a sound plan holds every color of the lattice once, and
/// nothing else.
pub proof fn lemma_order(plan: Plan)
    requires
        plan.wf(),
    ensures
        plan.order.len() == plan.total(),
        plan.total() == plan.side() * plan.side(),
        0 < plan.side() <= 4096,
        2 <= plan.axis() <= 256,
        plan.order.no_duplicates(),
        forall|k: int| 0 <= k < plan.order.len() ==> (#[trigger] plan.order[k]).within(plan.axis()),
        forall|c: ColorCoord| #[trigger] c.within(plan.axis()) ==> plan.order.contains(c),
        plan.color_ranking.len() == 8 * plan.total(),
        plan.location_ranking.len() == 4 * spec_sweep_count(plan.side()),
        plan.location_ranking.len() <= 4 * 4096 * 2049,
{
    broadcast use vstd::seq_lib::to_multiset_len, vstd::seq_lib::to_multiset_contains;

    lemma_sizes(plan.scale);
    lemma_color_bases(plan.scale);
    let bases = spec_color_bases(plan.scale as int);
    let order = plan.order;
    assert(plan.side() * (plan.side() / 2 + 1) <= 4096 * 2049) by (nonlinear_arith)
        requires
            0 < plan.side() <= 4096,
    ;
    assert(order.to_multiset().len() == bases.to_multiset().len());
    assert(bases.no_duplicates());
    bases.lemma_multiset_has_no_duplicates();
    order.lemma_multiset_has_no_duplicates_conv();
    assert forall|k: int| 0 <= k < order.len() implies (#[trigger] order[k]).within(
        plan.axis(),
    ) by {
        assert(order.contains(order[k]));
        assert(order.to_multiset().count(order[k]) > 0);
        assert(bases.to_multiset().count(order[k]) > 0);
        assert(bases.contains(order[k]));
    }
    assert forall|c: ColorCoord| #[trigger] c.within(plan.axis()) implies order.contains(c) by {
        assert(bases[c.position(plan.axis())] == c);
        assert(bases.contains(c));
        assert(bases.to_multiset().count(c) > 0);
        assert(order.to_multiset().count(c) > 0);
    }
}

/// A move on a wrapping grid ends on the grid.
pub proof fn lemma_destination_within(from: Location, offset: LocationOffset, side: int)
    requires
        0 < side <= 4096,
    ensures
        spec_destination(from, offset, side).within(side),
{
    lemma_mod_bound(from.row + offset.rows, side);
    lemma_mod_bound(from.col + offset.cols, side);
}

/// The record before anything is placed.
pub open spec fn spec_initial(plan: Plan) -> State {
    State {
        cells: Seq::new(plan.total() as nat, |i: int| None::<Pixel>),
        index: Map::<ColorCoord, Location>::empty(),
        cursor: 0,
        seeds: Seq::<Location>::empty(),
        collisions: 0,
        pending: Pending::SeedLocation,
    }
}

/// A run starts from a sound record.
pub proof fn lemma_initial(plan: Plan)
    requires
        plan.wf(),
    ensures
        plan.admits(spec_initial(plan)),
{
    lemma_order(plan);
    lemma_occupied_none(spec_initial(plan).cells);
}

/// Placing the color in turn keeps the records sound, provided the cell lies
/// on the grid, a grown color gets an empty cell, and a seed a cell that can
/// take it.
pub proof fn lemma_placed_records(plan: Plan, state: State, loc: Location, heading: Heading)
    requires
        plan.wf(),
        plan.records(state),
        state.cursor < plan.total(),
        loc.within(plan.side()),
        state.cursor >= plan.num_seeds ==> state.cells[loc.flat(plan.side())].is_none(),
        state.cursor < plan.num_seeds ==> plan.acceptable(state.seeds, loc),
    ensures
        plan.records(plan.placed(state, loc, heading)),
        state.cursor >= plan.num_seeds ==> plan.placed(state, loc, heading).collisions
            == state.collisions,
{
    lemma_order(plan);
    let side = plan.side();
    let order = plan.order;
    let after = plan.placed(state, loc, heading);
    let color = order[state.cursor as int];
    let place = loc.flat(side);
    let fresh = state.cells[place].is_none();
    let pixel = Pixel { color: spec_color_of(color, plan.axis()), heading };
    lemma_flat(loc, side);
    assert(!state.index.dom().contains(color));
    // Earlier colors keep their entries.
    assert forall|k: int| 0 <= k < state.cursor implies order[k] != color
        && #[trigger] after.index[order[k]] == state.index[order[k]] by {
        assert(order[k] != order[state.cursor as int]);
    }
    // A filled cell that an earlier color points to is not the new one when
    // that one was empty.
    assert forall|k: int| 0 <= k < state.cursor implies after.cells[(
    #[trigger] state.index[order[k]]).flat(side)] == state.cells[state.index[order[k]].flat(
        side,
    )] by {
        lemma_flat(state.index[order[k]], side);
        assert(state.cells[state.index[order[k]].flat(side)].is_some());
    }
    if fresh {
        lemma_occupied_fill(state.cells, place, pixel);
    }
    // Under enforced spacing a seed that can be taken finds its cell empty.
    if plan.spacing == Spacing::Enforced && !fresh {
        let k = choose|k: int|
            0 <= k < state.cursor && (#[trigger] state.index[order[k]]).flat(side) == place;
        assert(state.seeds[k] == state.index[order[k]]);
        lemma_flat(state.seeds[k], side);
        assert(state.seeds[k] == loc);
        assert(spec_gap(loc.row as int, loc.row as int, side) == 0);
        assert(spec_gap(loc.col as int, loc.col as int, side) == 0);
        assert(spec_distance_squared(loc, loc, side) == 0);
        assert(4 * plan.num_seeds * 0 < side * side) by (nonlinear_arith)
            requires
                0 < side,
        ;
        assert(spec_too_close(state.seeds[k], loc, side, plan.num_seeds as int));
        assert(false);
    }
    assert forall|k: int| 0 <= k < after.seeds.len() implies (#[trigger] after.seeds[k]).within(
        side,
    ) && after.index[order[k]] == after.seeds[k] by {
        if k < state.seeds.len() {
            assert(state.seeds[k].within(side));
            assert(after.index[order[k]] == state.index[order[k]]);
        }
    }
    assert forall|k: int| 0 <= k < order.len() implies (after.index.dom().contains(
        #[trigger] order[k],
    ) <==> k < after.cursor) by {
        if k != state.cursor {
            assert(order[k] != order[state.cursor as int]);
        }
    }
    assert forall|c: ColorCoord| #[trigger] after.index.dom().contains(c) implies order.contains(
        c,
    ) by {
        if c == color {
            assert(order[state.cursor as int] == c);
        }
    }
    assert forall|k: int| 0 <= k < after.cursor implies (#[trigger] after.index[order[k]]).within(
        side,
    ) && after.cells[after.index[order[k]].flat(side)].is_some() by {
        if k < state.cursor {
            assert(after.index[order[k]] == state.index[order[k]]);
            assert(state.index[order[k]].within(side));
        }
    }
    assert forall|i: int|
        0 <= i < after.cells.len() && (#[trigger] after.cells[i]).is_some() implies exists|k: int|
        0 <= k < after.cursor && (#[trigger] after.index[order[k]]).flat(side) == i by {
        if i == place {
            assert(after.index[order[state.cursor as int]].flat(side) == i);
        } else {
            assert(state.cells[i].is_some());
            let k = choose|k: int|
                0 <= k < state.cursor && (#[trigger] state.index[order[k]]).flat(side) == i;
            assert(after.index[order[k]] == state.index[order[k]]);
            assert(after.index[order[k]].flat(side) == i);
        }
    }
    if after.collisions == 0 {
        assert forall|k: int| 0 <= k < after.cursor implies after.cells[(
        #[trigger] after.index[order[k]]).flat(side)].unwrap().color == spec_color_of(
            order[k],
            plan.axis(),
        ) by {
            if k < state.cursor {
                assert(after.index[order[k]] == state.index[order[k]]);
                assert(state.cells[state.index[order[k]].flat(side)].is_some());
            }
        }
    }
    if plan.spacing == Spacing::Enforced {
        assert forall|a: int, b: int| 0 <= a < b < after.seeds.len() implies !spec_too_close(
            #[trigger] after.seeds[a],
            #[trigger] after.seeds[b],
            side,
            plan.num_seeds as int,
        ) by {
            if b < state.seeds.len() {
                assert(!spec_too_close(
                    state.seeds[a],
                    state.seeds[b],
                    side,
                    plan.num_seeds as int,
                ));
            } else {
                assert(!spec_too_close(state.seeds[a], loc, side, plan.num_seeds as int));
            }
        }
    }
}

/// While growth goes on, some step of the ranking leads from the color in
/// turn to a placed color, and the color found stands in a filled cell.
pub proof fn lemma_neighbor_found(plan: Plan, state: State)
    requires
        plan.wf(),
        plan.records(state),
        plan.num_seeds <= state.cursor < plan.total(),
    ensures
        ({
            let color = plan.order[state.cursor as int];
            let found = first_from(
                reaches_placed(state.index, plan.color_ranking, color),
                0,
                plan.color_ranking.len() as int,
            );
            &&& found.is_some()
            &&& 0 <= found.unwrap() < plan.color_ranking.len()
            &&& spec_step(color, plan.color_ranking[found.unwrap()]).is_some()
            &&& state.index.dom().contains(
                spec_step(color, plan.color_ranking[found.unwrap()]).unwrap(),
            )
            &&& state.index[spec_step(color, plan.color_ranking[found.unwrap()]).unwrap()].within(
                plan.side(),
            )
            &&& state.cells[state.index[spec_step(
                color,
                plan.color_ranking[found.unwrap()],
            ).unwrap()].flat(plan.side())].is_some()
        }),
{
    lemma_order(plan);
    let color = plan.order[state.cursor as int];
    let pred = reaches_placed(state.index, plan.color_ranking, color);
    let end = plan.color_ranking.len() as int;
    // The first color of the order is a seed, placed long ago.
    let seed = plan.order[0];
    assert(state.index.dom().contains(seed));
    assert(seed.within(plan.axis()));
    assert(color.within(plan.axis()));
    lemma_color_ranking_reaches(plan.color_ranking, plan.scale, color, seed);
    let k = choose|k: int|
        0 <= k < plan.color_ranking.len() && plan.color_ranking[k] == color_step(color, seed);
    assert(spec_step(color, plan.color_ranking[k]) == Some(seed));
    assert(pred(k));
    lemma_first_from(pred, 0, end);
    let found = first_from(pred, 0, end);
    assert(found.is_some());
    let target = spec_step(color, plan.color_ranking[found.unwrap()]).unwrap();
    assert(pred(found.unwrap()));
    assert(state.index.dom().contains(target));
    assert(plan.order.contains(target));
    let j = choose|j: int| 0 <= j < plan.order.len() && plan.order[j] == target;
    assert(state.index.dom().contains(plan.order[j]));
    assert(j < state.cursor);
    assert(state.index[plan.order[j]].within(plan.side()));
}

/// While fewer colors are placed than there are cells, some move of the
/// ranking leads from any cell of the grid to an empty cell.
pub proof fn lemma_candidate_found(plan: Plan, state: State, around: Location)
    requires
        plan.wf(),
        plan.records(state),
        state.cursor < plan.total(),
        around.within(plan.side()),
    ensures
        ({
            let found = first_from(
                plan.open_from(state.cells, around),
                0,
                plan.location_ranking.len() as int,
            );
            &&& found.is_some()
            &&& 0 <= found.unwrap() < plan.location_ranking.len()
            &&& plan.open_from(state.cells, around)(found.unwrap())
        }),
{
    lemma_order(plan);
    let side = plan.side();
    let pred = plan.open_from(state.cells, around);
    lemma_occupied_bound(state.cells);
    let i = choose|i: int| 0 <= i < state.cells.len() && (#[trigger] state.cells[i]).is_none();
    lemma_cell_at(i, side);
    let empty = cell_at(i, side);
    lemma_location_ranking_reaches(plan.location_ranking, side, around, empty);
    let k = choose|k: int|
        0 <= k < plan.location_ranking.len() && spec_destination(
            around,
            #[trigger] plan.location_ranking[k],
            side,
        ) == empty;
    assert(pred(k));
    lemma_first_from(pred, 0, plan.location_ranking.len() as int);
}

/// What the engine waits for after a placement fits the records.
pub proof fn lemma_opening(plan: Plan, state: State)
    requires
        plan.wf(),
        plan.records(state),
        state.pending == plan.opening(state.cells, state.index, state.cursor),
    ensures
        plan.expects(state),
{
    lemma_order(plan);
    if plan.num_seeds <= state.cursor < plan.total() {
        lemma_neighbor_found(plan, state);
        let color = plan.order[state.cursor as int];
        let step = first_from(
            reaches_placed(state.index, plan.color_ranking, color),
            0,
            plan.color_ranking.len() as int,
        ).unwrap();
        let neighbor = state.index[spec_step(color, plan.color_ranking[step]).unwrap()];
        lemma_candidate_found(plan, state, neighbor);
    }
}

/// Placing the color in turn leads to a record that a run can reach.
pub proof fn lemma_placed(plan: Plan, state: State, loc: Location, heading: Heading)
    requires
        plan.wf(),
        plan.records(state),
        state.cursor < plan.total(),
        loc.within(plan.side()),
        state.cursor >= plan.num_seeds ==> state.cells[loc.flat(plan.side())].is_none(),
        state.cursor < plan.num_seeds ==> plan.acceptable(state.seeds, loc),
    ensures
        plan.admits(plan.placed(state, loc, heading)),
{
    lemma_placed_records(plan, state, loc, heading);
    lemma_opening(plan, plan.placed(state, loc, heading));
}

/// Supplying a direction keeps the record sound.
pub proof fn lemma_oriented(plan: Plan, state: State, direction: u64)
    requires
        plan.wf(),
        plan.admits(state),
    ensures
        plan.admits(plan.oriented(state, direction)),
{
    lemma_order(plan);
    match state.pending {
        Pending::SeedDirection { at } => {
            lemma_placed(plan, state, at, Heading::Drawn(direction));
        },
        _ => {},
    }
}

/// Giving a verdict keeps the record sound.
pub proof fn lemma_judged(plan: Plan, state: State, verdict: Verdict)
    requires
        plan.wf(),
        plan.admits(state),
    ensures
        plan.admits(plan.judged(state, verdict)),
{
    lemma_order(plan);
    let side = plan.side();
    match state.pending {
        Pending::Verdict { neighbor, inherited, candidate, best } => {
            let pred = plan.open_from(state.cells, neighbor);
            match verdict {
                Verdict::Accept => {
                    let offset = plan.location_ranking[candidate as int];
                    lemma_destination_within(neighbor, offset, side);
                    lemma_placed(
                        plan,
                        state,
                        spec_destination(neighbor, offset, side),
                        Heading::Along(offset),
                    );
                },
                Verdict::Cost(cost) => {
                    let kept = spec_better(best, cost, candidate);
                    assert(kept.candidate <= candidate && pred(kept.candidate as int));
                    let end = plan.location_ranking.len() as int;
                    lemma_first_from(pred, candidate + 1, end);
                    match first_from(pred, candidate + 1, end) {
                        Some(next) => {},
                        None => {
                            let offset = plan.location_ranking[kept.candidate as int];
                            lemma_destination_within(neighbor, offset, side);
                            lemma_placed(
                                plan,
                                state,
                                spec_destination(neighbor, offset, side),
                                Heading::Along(offset),
                            );
                        },
                    }
                },
            }
        },
        _ => {},
    }
}

} // verus!
