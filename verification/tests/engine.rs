use std::collections::HashSet;
use std::f64::consts::{FRAC_PI_2, PI};

use color_growth::canvas::assemble;
use color_growth::engine::Engine;
use color_growth::grid::Heading;
use color_growth::model::{too_close, ConfigError, Pending, Request, Spacing, Verdict};
use color_growth::palette::{color_base_to_color, color_bases, ColorCoord};
use color_growth::ranking::Ranked;
use color_growth::torus::{destination, Location, LocationOffset};
use rand::rngs::StdRng;
use rand::Rng;

fn angle_of(offset: LocationOffset) -> f64 {
    (offset.rows as f64).atan2(offset.cols as f64)
}

fn direction_of(heading: Heading) -> f64 {
    match heading {
        Heading::Drawn(bits) => f64::from_bits(bits),
        Heading::Along(offset) => angle_of(offset),
    }
}

fn evaluate(inherited: Heading, offset: LocationOffset, spread: f64) -> Verdict {
    let mut diff = angle_of(offset) - direction_of(inherited);
    if diff < -PI {
        diff += 2.0 * PI;
    } else if diff > PI {
        diff -= 2.0 * PI;
    }
    if diff.abs() < spread {
        Verdict::Accept
    } else {
        let gap = diff.abs() - spread;
        let distance = (offset.measure() as f64).sqrt();
        Verdict::Cost((distance * gap).to_bits())
    }
}

fn drive(engine: &mut Engine, rng: &mut StdRng, spread: f64) {
    loop {
        match engine.request() {
            Request::SeedLocation => {
                engine.locate_seed(rng);
            }
            Request::SeedDirection => {
                let angle: f64 = rng.gen_range(0.0..2.0 * PI);
                assert!(engine.orient_seed(angle.to_bits()));
            }
            Request::Verdict { inherited, offset } => {
                assert!(engine.judge(evaluate(inherited, offset, spread)));
            }
            Request::Finished => return,
        }
    }
}

fn run(scale: u64, spread: f64, num_seeds: usize, seed: u64, spacing: Spacing) -> Engine {
    let (mut engine, mut rng) = Engine::new(scale, num_seeds, spacing, seed).unwrap();
    drive(&mut engine, &mut rng, spread);
    engine
}

fn cell(row: usize, col: usize) -> Location {
    Location { row, col }
}

#[test]
fn one_seed_on_the_smallest_grid_fills_every_cell() {
    let (mut engine, mut rng) = Engine::new(2, 1, Spacing::Enforced, 0).unwrap();
    let mut seeds = 0;
    let mut grown = 0;
    loop {
        let before = engine.placed();
        match engine.request() {
            Request::SeedLocation => {
                engine.locate_seed(&mut rng);
            }
            Request::SeedDirection => {
                let angle: f64 = rng.gen_range(0.0..2.0 * PI);
                engine.orient_seed(angle.to_bits());
                seeds += 1;
            }
            Request::Verdict { inherited, offset } => {
                engine.judge(evaluate(inherited, offset, 0.15));
                grown += engine.placed() - before;
            }
            Request::Finished => break,
        }
    }
    assert_eq!(seeds, 1);
    assert_eq!(grown, 63);
    assert_eq!(engine.placed(), 64);
    assert_eq!(engine.collisions(), 0);
    assert_eq!(engine.seeds().len(), 1);
    assert_eq!(engine.pending(), Pending::Finished);
    let samples = assemble(engine.grid()).into_samples();
    assert_eq!(samples.len(), 8 * 8 * 3);
    let mut colors = HashSet::new();
    for pixel in samples.chunks(3) {
        assert!(colors.insert((pixel[0], pixel[1], pixel[2])));
    }
    assert_eq!(colors.len(), 64);
    for coord in color_bases(2) {
        let color = color_base_to_color(coord, 4);
        assert!(colors.contains(&(color.r, color.g, color.b)));
    }
}

#[test]
fn a_finished_run_shows_every_color_in_its_own_cell() {
    for (seed, num_seeds) in [(0u64, 1usize), (1, 3), (7, 8)] {
        let engine = run(2, 0.15, num_seeds, seed, Spacing::Enforced);
        assert_eq!(engine.placed(), 64);
        assert_eq!(engine.collisions(), 0);
        let mut cells = HashSet::new();
        for coord in color_bases(2) {
            let loc = engine.index().get(coord).unwrap();
            assert!(loc.row < 8 && loc.col < 8);
            assert!(cells.insert(loc));
            let pixel = engine.grid().get(loc).unwrap();
            assert_eq!(pixel.color, color_base_to_color(coord, 4));
        }
        assert_eq!(cells.len(), 64);
    }
}

#[test]
fn a_larger_run_finishes() {
    let engine = run(3, 0.15, 5, 42, Spacing::Enforced);
    assert_eq!(engine.placed(), 729);
    assert_eq!(engine.collisions(), 0);
    let mut cells = HashSet::new();
    for coord in color_bases(3) {
        assert!(cells.insert(engine.index().get(coord).unwrap()));
    }
    for row in 0..27 {
        for col in 0..27 {
            assert!(engine.grid().get(cell(row, col)).is_some());
        }
    }
}

#[test]
fn equal_inputs_give_equal_images() {
    let first = assemble(run(2, 0.15, 3, 5, Spacing::Enforced).grid()).into_samples();
    let second = assemble(run(2, 0.15, 3, 5, Spacing::Enforced).grid()).into_samples();
    assert_eq!(first, second);
    let other = assemble(run(2, 0.15, 3, 6, Spacing::Enforced).grid()).into_samples();
    assert_ne!(first, other);
}

#[test]
fn the_order_is_a_shuffle_of_the_palette() {
    let (engine, _) = Engine::new(2, 1, Spacing::Free, 0).unwrap();
    let bases = color_bases(2);
    let order = engine.order().clone();
    assert_eq!(order.len(), 64);
    assert_ne!(order, bases);
    let seen: HashSet<ColorCoord> = order.iter().copied().collect();
    assert_eq!(seen.len(), 64);
    for coord in &bases {
        assert!(seen.contains(coord));
    }
    let (again, _) = Engine::new(2, 1, Spacing::Free, 0).unwrap();
    assert_eq!(again.order(), &order);
}

#[test]
fn a_new_engine_has_placed_nothing() {
    let (engine, _) = Engine::new(2, 2, Spacing::Enforced, 9).unwrap();
    assert_eq!(engine.request(), Request::SeedLocation);
    assert_eq!(engine.pending(), Pending::SeedLocation);
    assert_eq!(engine.placed(), 0);
    assert_eq!(engine.collisions(), 0);
    assert!(engine.seeds().is_empty());
    assert_eq!(engine.color_ranking().len(), 512);
    assert_eq!(engine.location_ranking().len(), 160);
    for coord in color_bases(2) {
        assert_eq!(engine.index().get(coord), None);
    }
    for row in 0..8 {
        for col in 0..8 {
            assert_eq!(engine.grid().get(cell(row, col)), None);
        }
    }
}

#[test]
fn no_seeds_are_rejected() {
    assert_eq!(Engine::new(2, 0, Spacing::Enforced, 0).err(), Some(ConfigError::NoSeeds));
    assert_eq!(Engine::new(2, 0, Spacing::Free, 0).err(), Some(ConfigError::NoSeeds));
}

#[test]
fn bad_configurations_are_rejected() {
    assert_eq!(Engine::new(1, 1, Spacing::Free, 0).err(), Some(ConfigError::ScaleTooSmall));
    assert_eq!(Engine::new(0, 1, Spacing::Free, 0).err(), Some(ConfigError::ScaleTooSmall));
    assert_eq!(Engine::new(17, 1, Spacing::Free, 0).err(), Some(ConfigError::ScaleTooLarge));
    assert_eq!(Engine::new(2, 65, Spacing::Free, 0).err(), Some(ConfigError::TooManySeeds));
    assert!(Engine::new(2, 64, Spacing::Free, 0).is_ok());
}

#[test]
fn drawn_seeds_lie_on_the_grid() {
    let (mut engine, mut rng) = Engine::new(2, 64, Spacing::Free, 3).unwrap();
    let mut rows = HashSet::new();
    for turn in 0..64 {
        assert_eq!(engine.request(), Request::SeedLocation);
        assert!(engine.locate_seed(&mut rng));
        assert_eq!(engine.request(), Request::SeedDirection);
        assert!(engine.orient_seed(turn));
        let loc = engine.seeds()[turn as usize];
        assert!(loc.row < 8 && loc.col < 8);
        rows.insert(loc.row);
    }
    assert!(rows.len() > 1);
    assert_eq!(engine.request(), Request::Finished);
    assert_eq!(engine.placed(), 64);
}

#[test]
fn enforced_spacing_keeps_seeds_apart() {
    let (mut engine, mut rng) = Engine::new(2, 4, Spacing::Enforced, 11).unwrap();
    while engine.seeds().len() < 4 {
        match engine.request() {
            Request::SeedLocation => {
                engine.locate_seed(&mut rng);
            }
            Request::SeedDirection => {
                engine.orient_seed(0);
            }
            _ => unreachable!(),
        }
    }
    let seeds = engine.seeds().clone();
    for a in 0..4 {
        for b in 0..a {
            assert!(!too_close(seeds[a], seeds[b], 8, 4));
            assert_ne!(seeds[a], seeds[b]);
        }
    }
    assert_eq!(engine.collisions(), 0);
    assert!(matches!(engine.request(), Request::Verdict { .. }));
}

#[test]
fn a_seed_too_close_is_turned_down() {
    let (mut engine, _) = Engine::new(2, 2, Spacing::Enforced, 0).unwrap();
    assert!(engine.propose_seed(cell(1, 1)));
    assert_eq!(engine.pending(), Pending::SeedDirection { at: cell(1, 1) });
    // Not while a direction is due.
    assert!(!engine.propose_seed(cell(5, 5)));
    assert!(engine.orient_seed(0));
    // Two seeds on a grid of side 8 must be 8 / (2 * sqrt(2)) apart: a
    // squared distance of 8 is just enough.
    assert!(!engine.propose_seed(cell(1, 1)));
    assert!(!engine.propose_seed(cell(1, 3)));
    assert!(!engine.propose_seed(cell(2, 3)));
    assert!(!engine.propose_seed(cell(0, 7)));
    assert!(!engine.propose_seed(cell(8, 1)));
    assert_eq!(engine.request(), Request::SeedLocation);
    assert_eq!(engine.placed(), 1);
    assert!(engine.propose_seed(cell(7, 7)));
    assert!(engine.orient_seed(0));
    assert_eq!(engine.seeds(), &vec![cell(1, 1), cell(7, 7)]);
}

#[test]
fn free_seeds_may_share_a_cell() {
    let (mut engine, _) = Engine::new(2, 2, Spacing::Free, 0).unwrap();
    let order = engine.order().clone();
    assert!(engine.propose_seed(cell(2, 6)));
    assert!(engine.orient_seed(1));
    assert!(engine.propose_seed(cell(2, 6)));
    assert!(engine.orient_seed(2));
    assert_eq!(engine.collisions(), 1);
    assert_eq!(engine.placed(), 2);
    // The cell keeps the first seed; the index records both.
    let pixel = engine.grid().get(cell(2, 6)).unwrap();
    assert_eq!(pixel.color, color_base_to_color(order[0], 4));
    assert_eq!(pixel.heading, Heading::Drawn(1));
    assert_eq!(engine.index().get(order[0]), Some(cell(2, 6)));
    assert_eq!(engine.index().get(order[1]), Some(cell(2, 6)));
    // The run still ends, one cell short.
    let mut rng = Engine::new(2, 2, Spacing::Free, 0).unwrap().1;
    drive(&mut engine, &mut rng, 0.15);
    assert_eq!(engine.placed(), 64);
    let filled = (0..64).filter(|n| engine.grid().get(cell(n / 8, n % 8)).is_some()).count();
    assert_eq!(filled, 63);
}

#[test]
fn replies_out_of_turn_change_nothing() {
    let (mut engine, _) = Engine::new(2, 1, Spacing::Free, 0).unwrap();
    assert!(!engine.orient_seed(5));
    assert!(!engine.judge(Verdict::Accept));
    assert_eq!(engine.request(), Request::SeedLocation);
    assert_eq!(engine.placed(), 0);
    assert!(engine.propose_seed(cell(0, 0)));
    assert!(!engine.judge(Verdict::Cost(1)));
    assert_eq!(engine.request(), Request::SeedDirection);
    assert!(engine.orient_seed(5));
    assert!(!engine.orient_seed(6));
    assert!(!engine.propose_seed(cell(1, 1)));
    assert_eq!(engine.placed(), 1);
    let engine = {
        let mut done = run(2, 0.15, 1, 0, Spacing::Free);
        assert!(!done.judge(Verdict::Accept));
        assert!(!done.orient_seed(0));
        assert!(!done.propose_seed(cell(0, 0)));
        done
    };
    assert_eq!(engine.request(), Request::Finished);
    assert_eq!(engine.placed(), 64);
}

#[test]
fn a_difference_equal_to_the_spread_is_not_accepted() {
    let (mut engine, _) = Engine::new(2, 1, Spacing::Free, 0).unwrap();
    let order = engine.order().clone();
    assert!(engine.propose_seed(cell(3, 3)));
    assert!(engine.orient_seed(0.0f64.to_bits()));
    // The first candidate lies one row on: at a right angle to heading 0.
    let request = engine.request();
    let up = LocationOffset { rows: 1, cols: 0 };
    assert_eq!(request, Request::Verdict { inherited: Heading::Drawn(0), offset: up });
    assert_eq!(angle_of(up), FRAC_PI_2);
    let verdict = evaluate(Heading::Drawn(0.0f64.to_bits()), up, FRAC_PI_2);
    assert_eq!(verdict, Verdict::Cost(0.0f64.to_bits()));
    // A slightly wider spread does accept.
    assert_eq!(evaluate(Heading::Drawn(0), up, FRAC_PI_2 + 1e-9), Verdict::Accept);
    // With the cost the scan goes on: nothing is placed yet.
    assert!(engine.judge(verdict));
    assert_eq!(engine.placed(), 1);
    assert!(matches!(engine.request(), Request::Verdict { offset, .. } if offset == up));
    // Nothing cheaper follows, so the first candidate wins in the end.
    while engine.placed() == 1 {
        assert!(engine.judge(Verdict::Cost(1.0f64.to_bits())));
    }
    assert_eq!(engine.index().get(order[1]), Some(cell(4, 3)));
    assert_eq!(engine.grid().get(cell(4, 3)).unwrap().heading, Heading::Along(up));
}

#[test]
fn the_first_accepted_candidate_is_taken_at_once() {
    let (mut engine, _) = Engine::new(2, 1, Spacing::Free, 0).unwrap();
    let order = engine.order().clone();
    assert!(engine.propose_seed(cell(3, 3)));
    assert!(engine.orient_seed(0));
    let ranking = engine.location_ranking().clone();
    // Moves 4 and 5 go one row on, 6 and 7 one row back, 8 one column on.
    assert!(engine.judge(Verdict::Cost(3)));
    assert!(engine.judge(Verdict::Cost(2)));
    assert!(engine.judge(Verdict::Cost(1)));
    assert!(engine.judge(Verdict::Cost(0)));
    assert_eq!(engine.request(), Request::Verdict { inherited: Heading::Drawn(0), offset: ranking[8] });
    assert!(engine.judge(Verdict::Accept));
    assert_eq!(engine.placed(), 2);
    assert_eq!(ranking[8], LocationOffset { rows: 0, cols: 1 });
    assert_eq!(engine.index().get(order[1]), Some(cell(3, 4)));
    let pixel = engine.grid().get(cell(3, 4)).unwrap();
    assert_eq!(pixel.heading, Heading::Along(ranking[8]));
    assert_eq!(pixel.color, color_base_to_color(order[1], 4));
}

#[test]
fn the_cheapest_candidate_is_taken_when_none_is_accepted() {
    let (mut engine, _) = Engine::new(2, 1, Spacing::Free, 0).unwrap();
    let order = engine.order().clone();
    assert!(engine.propose_seed(cell(3, 3)));
    assert!(engine.orient_seed(0));
    let ranking = engine.location_ranking().clone();
    let mut asked = Vec::new();
    while engine.placed() == 1 {
        let offset = match engine.request() {
            Request::Verdict { offset, .. } => offset,
            _ => unreachable!(),
        };
        asked.push(offset);
        // Cheapest: the moves that end two rows and one column back.
        let cost = if offset.rows.rem_euclid(8) == 6 && offset.cols.rem_euclid(8) == 7 {
            10
        } else {
            20 + asked.len() as u64
        };
        assert!(engine.judge(Verdict::Cost(cost)));
    }
    // Every move but the four that stay was asked about, in ranking order.
    assert_eq!(asked, ranking[4..].to_vec());
    assert_eq!(engine.index().get(order[1]), Some(cell(1, 2)));
    // Of the moves that cost least the earliest gives the heading.
    let first = ranking
        .iter()
        .find(|offset| destination(cell(3, 3), **offset, 8) == cell(1, 2))
        .unwrap();
    assert_eq!(*first, LocationOffset { rows: -2, cols: -1 });
    assert_eq!(engine.grid().get(cell(1, 2)).unwrap().heading, Heading::Along(*first));
}

#[test]
fn growth_starts_from_the_most_similar_placed_color() {
    let (mut engine, _) = Engine::new(2, 2, Spacing::Free, 4).unwrap();
    let order = engine.order().clone();
    assert!(engine.propose_seed(cell(0, 0)));
    assert!(engine.orient_seed(100));
    assert!(engine.propose_seed(cell(4, 4)));
    assert!(engine.orient_seed(200));
    let color = order[2];
    let gap = |other: ColorCoord| {
        let r = color.r as i32 - other.r as i32;
        let g = color.g as i32 - other.g as i32;
        let b = color.b as i32 - other.b as i32;
        r * r + g * g + b * b
    };
    let expected = if gap(order[0]) < gap(order[1]) {
        Some(Heading::Drawn(100))
    } else if gap(order[1]) < gap(order[0]) {
        Some(Heading::Drawn(200))
    } else {
        None
    };
    match engine.request() {
        Request::Verdict { inherited, offset } => {
            if let Some(heading) = expected {
                assert_eq!(inherited, heading);
            }
            assert_eq!(offset, LocationOffset { rows: 1, cols: 0 });
        }
        _ => unreachable!(),
    }
}
