//! What holds of every run: each color has one cell of its own, the grid
//! shows what the index records, and what is placed stays.

use vstd::prelude::*;
use crate::grid::{lemma_flat, lemma_occupied_bound, occupied, Heading, Pixel};
use crate::invariants::{lemma_destination_within, lemma_judged, lemma_order, lemma_oriented};
use crate::model::{spec_better, spec_too_close, Best, Pending, Plan, Spacing, State, Verdict};
use crate::search::{first_from, lemma_first_from};
use crate::palette::{lemma_color_of_injective, spec_color_of, ColorCoord};
use crate::torus::{spec_destination, spec_gap, Location};

verus! {

/// The index holds colors of the palette only, and each placed color's cell
/// lies on the grid and is filled.
pub proof fn lemma_indexed_is_placed(plan: Plan, state: State, color: ColorCoord)
    requires
        plan.wf(),
        plan.admits(state),
        state.index.dom().contains(color),
    ensures
        color.within(plan.axis()),
        state.index[color].within(plan.side()),
        state.cells[state.index[color].flat(plan.side())].is_some(),
{
    lemma_order(plan);
    assert(plan.order.contains(color));
    let k = choose|k: int| 0 <= k < plan.order.len() && plan.order[k] == color;
    assert(state.index.dom().contains(plan.order[k]));
    assert(state.index[plan.order[k]].within(plan.side()));
}

/// While no seed has found its cell taken, the cell of every placed color
/// holds that color's display color.
pub proof fn lemma_cell_shows_color(plan: Plan, state: State, color: ColorCoord)
    requires
        plan.wf(),
        plan.admits(state),
        state.collisions == 0,
        state.index.dom().contains(color),
    ensures
        state.cells[state.index[color].flat(plan.side())].is_some(),
        state.cells[state.index[color].flat(plan.side())].unwrap().color == spec_color_of(
            color,
            plan.axis(),
        ),
{
    lemma_order(plan);
    lemma_indexed_is_placed(plan, state, color);
    assert(plan.order.contains(color));
    let k = choose|k: int| 0 <= k < plan.order.len() && plan.order[k] == color;
    assert(state.index.dom().contains(plan.order[k]));
    assert(state.index[plan.order[k]].within(plan.side()));
}

/// While no seed has found its cell taken, two different placed colors have
/// two different cells.
pub proof fn lemma_cells_not_shared(plan: Plan, state: State, a: ColorCoord, b: ColorCoord)
    requires
        plan.wf(),
        plan.admits(state),
        state.collisions == 0,
        state.index.dom().contains(a),
        state.index.dom().contains(b),
        a != b,
    ensures
        state.index[a] != state.index[b],
{
    lemma_order(plan);
    lemma_indexed_is_placed(plan, state, a);
    lemma_indexed_is_placed(plan, state, b);
    lemma_cell_shows_color(plan, state, a);
    lemma_cell_shows_color(plan, state, b);
    lemma_color_of_injective(a, b, plan.axis());
}

/// The filled cells and the collisions add up to the colors placed; without
/// collisions there are as many filled cells as placed colors.
pub proof fn lemma_occupancy(plan: Plan, state: State)
    requires
        plan.wf(),
        plan.admits(state),
    ensures
        occupied(state.cells) + state.collisions == state.cursor,
        state.cursor <= plan.total(),
        state.pending == Pending::Finished ==> state.cursor == plan.total(),
        plan.spacing == Spacing::Enforced ==> state.collisions == 0,
{
}

/// When the run has finished, every color of the palette is indexed.
pub proof fn lemma_finished_indexes_all(plan: Plan, state: State, color: ColorCoord)
    requires
        plan.wf(),
        plan.admits(state),
        state.pending == Pending::Finished,
        color.within(plan.axis()),
    ensures
        state.index.dom().contains(color),
{
    lemma_order(plan);
    assert(plan.order.contains(color));
    let k = choose|k: int| 0 <= k < plan.order.len() && plan.order[k] == color;
    assert(state.index.dom().contains(plan.order[k]));
}

/// When the run has finished without a collision, every cell of the grid is
/// filled.
pub proof fn lemma_finished_fills_all(plan: Plan, state: State, place: int)
    requires
        plan.wf(),
        plan.admits(state),
        state.pending == Pending::Finished,
        state.collisions == 0,
        0 <= place < plan.total(),
    ensures
        state.cells[place].is_some(),
{
    lemma_occupied_bound(state.cells);
}

/// While no seed has found its cell taken, two different filled cells hold
/// two different colors.
pub proof fn lemma_cells_distinctly_colored(plan: Plan, state: State, a: int, b: int)
    requires
        plan.wf(),
        plan.admits(state),
        state.collisions == 0,
        0 <= a < state.cells.len(),
        0 <= b < state.cells.len(),
        a != b,
        state.cells[a].is_some(),
        state.cells[b].is_some(),
    ensures
        state.cells[a].unwrap().color != state.cells[b].unwrap().color,
{
    lemma_order(plan);
    let side = plan.side();
    let i = choose|i: int|
        0 <= i < state.cursor && (#[trigger] state.index[plan.order[i]]).flat(side) == a;
    let j = choose|j: int|
        0 <= j < state.cursor && (#[trigger] state.index[plan.order[j]]).flat(side) == b;
    assert(state.cells[state.index[plan.order[i]].flat(side)].unwrap().color == spec_color_of(
        plan.order[i],
        plan.axis(),
    ));
    assert(state.cells[state.index[plan.order[j]].flat(side)].unwrap().color == spec_color_of(
        plan.order[j],
        plan.axis(),
    ));
    assert(plan.order[i] != plan.order[j]);
    lemma_color_of_injective(plan.order[i], plan.order[j], plan.axis());
}

/// Under enforced spacing no two seeds are too close, and no seed shares
/// its cell.
pub proof fn lemma_seeds_spaced(plan: Plan, state: State, a: int, b: int)
    requires
        plan.wf(),
        plan.admits(state),
        plan.spacing == Spacing::Enforced,
        0 <= a < b < state.seeds.len(),
    ensures
        !spec_too_close(state.seeds[a], state.seeds[b], plan.side(), plan.num_seeds as int),
        state.seeds[a] != state.seeds[b],
        state.collisions == 0,
{
    lemma_order(plan);
    let side = plan.side();
    if state.seeds[a] == state.seeds[b] {
        let loc = state.seeds[a];
        assert(spec_gap(loc.row as int, loc.row as int, side) == 0);
        assert(spec_gap(loc.col as int, loc.col as int, side) == 0);
        assert(4 * plan.num_seeds * 0 < side * side) by (nonlinear_arith)
            requires
                0 < side,
        ;
    }
}

/// What a cell holds and what the index records are the same in `after` as
/// in `before`, wherever `before` has something.
pub open spec fn keeps(before: State, after: State) -> bool {
    &&& after.cells.len() == before.cells.len()
    &&& forall|i: int|
        0 <= i < before.cells.len() && (#[trigger] before.cells[i]).is_some() ==> after.cells[i]
            == before.cells[i]
    &&& forall|c: ColorCoord| #[trigger]
        before.index.dom().contains(c) ==> after.index.dom().contains(c) && after.index[c]
            == before.index[c]
    &&& before.cursor <= after.cursor
}

/// Placing the color in turn changes no filled cell and no entry of the
/// index.
pub proof fn lemma_placed_keeps(plan: Plan, state: State, loc: Location, heading: Heading)
    requires
        plan.wf(),
        plan.admits(state),
        state.cursor < plan.total(),
        loc.within(plan.side()),
    ensures
        keeps(state, plan.placed(state, loc, heading)),
{
    lemma_order(plan);
    lemma_flat(loc, plan.side());
    assert(!state.index.dom().contains(plan.order[state.cursor as int]));
}

/// No reply of the driver changes a filled cell or an entry of the index.
pub proof fn lemma_replies_keep(
    plan: Plan,
    state: State,
    loc: Location,
    direction: u64,
    verdict: Verdict,
)
    requires
        plan.wf(),
        plan.admits(state),
    ensures
        keeps(state, plan.proposed(state, loc)),
        keeps(state, plan.oriented(state, direction)),
        keeps(state, plan.judged(state, verdict)),
{
    lemma_order(plan);
    let side = plan.side();
    match state.pending {
        Pending::SeedDirection { at } => {
            lemma_placed_keeps(plan, state, at, Heading::Drawn(direction));
        },
        Pending::Verdict { neighbor, inherited, candidate, best } => {
            let offset = plan.location_ranking[candidate as int];
            lemma_destination_within(neighbor, offset, side);
            lemma_placed_keeps(
                plan,
                state,
                spec_destination(neighbor, offset, side),
                Heading::Along(offset),
            );
            match verdict {
                Verdict::Cost(cost) => {
                    let kept = spec_better(best, cost, candidate);
                    let last = plan.location_ranking[kept.candidate as int];
                    lemma_destination_within(neighbor, last, side);
                    lemma_placed_keeps(
                        plan,
                        state,
                        spec_destination(neighbor, last, side),
                        Heading::Along(last),
                    );
                },
                _ => {},
            }
        },
        _ => {},
    }
}

/// A scan ends with the move that growth has to take: the earliest accepted
/// candidate, or the earliest of the cheapest where none is accepted. This
/// holds from any point of the scan at which `best` is the earliest of the
/// cheapest candidates passed, none of them accepted.
pub proof fn lemma_scan_from(
    plan: Plan,
    cells: Seq<Option<Pixel>>,
    around: Location,
    verdicts: spec_fn(int) -> Verdict,
    k: int,
    best: Option<Best>,
)
    requires
        plan.wf(),
        0 <= k <= plan.location_ranking.len(),
        match best {
            Some(b) => {
                &&& b.candidate < k
                &&& plan.opens(cells, around, b.candidate as int)
                &&& verdicts(b.candidate as int) == Verdict::Cost(b.cost)
                &&& forall|m: int|
                    0 <= m < k && #[trigger] plan.opens(cells, around, m) ==> match verdicts(m) {
                        Verdict::Cost(other) => b.cost < other || (b.cost == other && b.candidate
                            <= m),
                        Verdict::Accept => false,
                    }
            },
            None => {
                &&& forall|m: int| 0 <= m < k ==> !#[trigger] plan.opens(cells, around, m)
                &&& exists|m: int|
                    k <= m < plan.location_ranking.len() && #[trigger] plan.opens(cells, around, m)
            },
        },
    ensures
        plan.is_choice(cells, around, verdicts, plan.scan(cells, around, verdicts, k, best)),
    decreases plan.location_ranking.len() - k,
{
    lemma_order(plan);
    let end = plan.location_ranking.len() as int;
    if k >= end {
    } else if !plan.opens(cells, around, k) {
        lemma_scan_from(plan, cells, around, verdicts, k + 1, best);
    } else {
        match verdicts(k) {
            Verdict::Accept => {},
            Verdict::Cost(cost) => {
                let kept = spec_better(best, cost, k as usize);
                lemma_scan_from(plan, cells, around, verdicts, k + 1, Some(kept));
            },
        }
    }
}

/// A whole scan ends with the move that growth has to take, provided some
/// move leads to an empty cell.
pub proof fn lemma_scan(
    plan: Plan,
    cells: Seq<Option<Pixel>>,
    around: Location,
    verdicts: spec_fn(int) -> Verdict,
)
    requires
        plan.wf(),
        exists|m: int|
            0 <= m < plan.location_ranking.len() && #[trigger] plan.opens(cells, around, m),
    ensures
        plan.is_choice(cells, around, verdicts, plan.scan(cells, around, verdicts, 0, None)),
{
    lemma_scan_from(plan, cells, around, verdicts, 0, None);
}

/// Each verdict moves the engine along the scan: where it waits for the
/// verdict on a candidate and is given the one that `verdicts` holds for it,
/// it either waits for the next candidate, with the same end of the scan in
/// view, or places the color in turn where the scan ends.
pub proof fn lemma_judged_follows_scan(plan: Plan, state: State, verdicts: spec_fn(int) -> Verdict)
    requires
        plan.wf(),
        plan.admits(state),
        state.pending is Verdict,
    ensures
        ({
            let neighbor = state.pending->neighbor;
            let candidate = state.pending->candidate as int;
            let end = plan.scan(state.cells, neighbor, verdicts, candidate, state.pending->best);
            let next = plan.judged(state, verdicts(candidate));
            ||| next == plan.settled(state, neighbor, end)
            ||| {
                &&& next.pending is Verdict
                &&& next.pending->neighbor == neighbor
                &&& next.pending->inherited == state.pending->inherited
                &&& next.pending->candidate > candidate
                &&& next.cells == state.cells
                &&& next.index == state.index
                &&& next.cursor == state.cursor
                &&& plan.scan(
                    next.cells,
                    neighbor,
                    verdicts,
                    next.pending->candidate as int,
                    next.pending->best,
                ) == end
            }
        }),
{
    lemma_order(plan);
    let neighbor = state.pending->neighbor;
    let candidate = state.pending->candidate as int;
    let best = state.pending->best;
    let end = plan.location_ranking.len() as int;
    let pred = plan.open_from(state.cells, neighbor);
    match verdicts(candidate) {
        Verdict::Accept => {},
        Verdict::Cost(cost) => {
            let kept = spec_better(best, cost, candidate as usize);
            lemma_first_from(pred, candidate + 1, end);
            match first_from(pred, candidate + 1, end) {
                Some(next) => {
                    lemma_scan_skips(
                        plan,
                        state.cells,
                        neighbor,
                        verdicts,
                        candidate + 1,
                        next,
                        Some(kept),
                    );
                },
                None => {
                    lemma_scan_skips(
                        plan,
                        state.cells,
                        neighbor,
                        verdicts,
                        candidate + 1,
                        end,
                        Some(kept),
                    );
                },
            }
        },
    }
}

/// A scan passes over moves that lead to filled cells.
proof fn lemma_scan_skips(
    plan: Plan,
    cells: Seq<Option<Pixel>>,
    around: Location,
    verdicts: spec_fn(int) -> Verdict,
    from: int,
    to: int,
    best: Option<Best>,
)
    requires
        from <= to <= plan.location_ranking.len(),
        forall|m: int| from <= m < to ==> !#[trigger] plan.open_from(cells, around)(m),
    ensures
        plan.scan(cells, around, verdicts, from, best) == plan.scan(
            cells,
            around,
            verdicts,
            to,
            best,
        ),
    decreases to - from,
{
    if from < to {
        assert(!plan.opens(cells, around, from));
        lemma_scan_skips(plan, cells, around, verdicts, from + 1, to, best);
    }
}

/// A run cannot go on for ever: every reply that the engine takes brings
/// the bound on the replies still due down, and the bound is zero just when
/// the run is finished.
pub proof fn lemma_progress(
    plan: Plan,
    state: State,
    loc: Location,
    direction: u64,
    verdict: Verdict,
)
    requires
        plan.wf(),
        plan.admits(state),
    ensures
        plan.work(state) >= 0,
        plan.work(state) == 0 <==> state.pending == Pending::Finished,
        plan.proposed(state, loc) != state ==> plan.work(plan.proposed(state, loc)) < plan.work(
            state,
        ),
        state.pending is SeedDirection ==> plan.work(plan.oriented(state, direction)) < plan.work(
            state,
        ),
        state.pending is Verdict ==> plan.work(plan.judged(state, verdict)) < plan.work(state),
{
    lemma_order(plan);
    lemma_oriented(plan, state, direction);
    lemma_judged(plan, state, verdict);
    let turn = plan.location_ranking.len() + 2;
    let left = plan.total() - state.cursor;
    if left >= 1 {
        assert(left * turn >= turn && (left - 1) * turn == left * turn - turn && (left - 1) * turn
            >= 0) by (nonlinear_arith)
            requires
                left >= 1,
                turn >= 2,
        ;
    }
    assert(0 * turn == 0);
    lemma_turn_bound(plan, plan.oriented(state, direction));
    lemma_turn_bound(plan, plan.judged(state, verdict));
    if state.pending is Verdict {
        let next = plan.judged(state, verdict);
        if next.cursor == state.cursor {
            lemma_judged_follows_scan(plan, state, |k: int| verdict);
        }
    }
}

/// What the color in turn has used up is less than a whole turn.
proof fn lemma_turn_bound(plan: Plan, state: State)
    requires
        plan.wf(),
        plan.admits(state),
    ensures
        state.cursor <= plan.total(),
        plan.work(state) <= (plan.total() - state.cursor) * (plan.location_ranking.len() + 2),
{
}

} // verus!
