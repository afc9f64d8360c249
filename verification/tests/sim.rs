use robo_harvest::gen::ConfigError;
use robo_harvest::robot::Robot;
use robo_harvest::state::GameState;
use robo_harvest::{Cell, Role};

fn explorer(x: usize, y: usize) -> Robot {
    Robot {
        x,
        y,
        role: Role::Explorer,
        resource_coords: None,
        carrying: None,
        speed: 1,
        move_counter: 0,
    }
}

fn empty_cells(w: usize, h: usize) -> Vec<Cell> {
    vec![Cell::Empty; w * h]
}

fn build(
    mut cells: Vec<Cell>,
    w: usize,
    h: usize,
    base: (usize, usize),
    robots: Vec<Robot>,
    seed: u64,
) -> GameState {
    cells[base.1 * w + base.0] = Cell::Base;
    GameState::from_parts(cells, w, h, base, robots, seed).unwrap()
}

/// Grid resources + carried resources + scores, per kind (crystal, energy).
fn totals(s: &GameState) -> (u64, u64) {
    let mut c = s.crystal_score as u64;
    let mut e = s.energy_score as u64;
    for cell in s.map.cells.iter() {
        match cell {
            Cell::Crystal | Cell::ReservedCrystal => c += 1,
            Cell::Energy | Cell::ReservedEnergy => e += 1,
            _ => {}
        }
    }
    for r in s.robots.iter() {
        match r.carrying {
            Some(Cell::Crystal) => c += 1,
            Some(Cell::Energy) => e += 1,
            _ => {}
        }
    }
    (c, e)
}

#[test]
fn determinism_same_seed() {
    let a = GameState::new(42, 16, 12).unwrap();
    let b = GameState::new(42, 16, 12).unwrap();
    assert_eq!(a.map.cells, b.map.cells);
    assert_eq!(a.base_position, b.base_position);
    assert_eq!(a.robots.len(), b.robots.len());
    for (ra, rb) in a.robots.iter().zip(b.robots.iter()) {
        assert_eq!((ra.x, ra.y), (rb.x, rb.y));
    }
}

#[test]
fn border_is_all_obstacle() {
    let s = GameState::new(7, 16, 12).unwrap();
    let (w, h) = (s.map.width, s.map.height);
    for x in 0..w {
        assert_eq!(s.map.cells[x], Cell::Obstacle);
        assert_eq!(s.map.cells[(h - 1) * w + x], Cell::Obstacle);
    }
    for y in 0..h {
        assert_eq!(s.map.cells[y * w], Cell::Obstacle);
        assert_eq!(s.map.cells[y * w + w - 1], Cell::Obstacle);
    }
}

#[test]
fn base_neighborhood_is_clear() {
    let s = GameState::new(99, 20, 14).unwrap();
    let (w, h) = (s.map.width, s.map.height);
    let (bx, by) = s.base_position;
    assert_eq!(s.map.cells[by * w + bx], Cell::Base);
    for y in 1..h - 1 {
        for x in 1..w - 1 {
            let dx = (x as i64 - bx as i64).abs();
            let dy = (y as i64 - by as i64).abs();
            if dx <= 3 && dy <= 3 {
                assert_ne!(s.map.cells[y * w + x], Cell::Obstacle);
            }
        }
    }
}

#[test]
fn generation_counts_and_fog() {
    let s = GameState::new(5, 18, 18).unwrap();
    let (c, e) = totals(&s);
    assert_eq!(c, 10);
    assert_eq!(e, 5);
    assert_eq!(s.crystal_score, 0);
    assert_eq!(s.energy_score, 0);
    assert!(!s.game_over);
    assert!(s.discovered.seen.iter().all(|d| !d));
    assert_eq!(s.robots.len(), 3);
    for r in s.robots.iter() {
        assert_eq!((r.x, r.y), s.base_position);
        assert_eq!(r.role, Role::Explorer);
        assert!(r.resource_coords.is_none());
        assert!(r.carrying.is_none());
    }
}

#[test]
fn degenerate_grid_is_a_config_error() {
    // a 3x3 grid is all border except one cell: the resources can never
    // be placed
    assert!(matches!(GameState::new(42, 3, 3), Err(ConfigError::NoEmptyCell)));
}

#[test]
fn conservation_across_ticks() {
    let mut s = GameState::new(2024, 20, 15).unwrap();
    let initial = totals(&s);
    for _ in 0..400 {
        s.step();
        assert_eq!(totals(&s), initial);
    }
}

#[test]
fn no_double_claim_across_ticks() {
    let mut s = GameState::new(7, 20, 15).unwrap();
    for _ in 0..400 {
        s.step();
        let claims: Vec<(usize, usize)> =
            s.robots.iter().filter_map(|r| r.resource_coords).collect();
        for i in 0..claims.len() {
            for j in i + 1..claims.len() {
                assert_ne!(claims[i], claims[j]);
            }
        }
    }
}

#[test]
fn pathfinder_moves_strictly_closer_without_obstacles() {
    let s = build(empty_cells(9, 9), 9, 9, (4, 4), vec![], 1);
    let step = s.move_robot_towards_target(1, 1, 3, 4, false);
    assert_ne!(step, (1, 1));
    let before = (3i64 - 1).abs() + (4i64 - 1).abs();
    let after = (3i64 - step.0 as i64).abs() + (4i64 - step.1 as i64).abs();
    assert_eq!(after, before - 1);
    // and a full path has optimal length on an obstacle-free grid
    let path = s.a_star_pathfinding((1, 1), (3, 4), false).unwrap();
    assert_eq!(path.len() as i64, before + 1);
    assert_eq!(path[0], (1, 1));
    assert_eq!(*path.last().unwrap(), (3, 4));
}

#[test]
fn pathfinder_uses_toroidal_wrap() {
    let s = build(empty_cells(9, 9), 9, 9, (4, 4), vec![], 1);
    // from one vertical edge to the other: wrapping is one step
    let path = s.a_star_pathfinding((0, 2), (8, 2), false).unwrap();
    assert_eq!(path.len(), 2);
}

#[test]
fn walled_off_goal_means_waiting() {
    let mut cells = empty_cells(9, 9);
    for (x, y) in [(6usize, 7usize), (8, 7), (7, 6), (7, 8)] {
        cells[y * 9 + x] = Cell::Obstacle;
    }
    let s = build(cells, 9, 9, (4, 4), vec![], 1);
    assert_eq!(s.move_robot_towards_target(1, 1, 7, 7, false), (1, 1));
    assert!(s.a_star_pathfinding((1, 1), (7, 7), false).is_none());
}

#[test]
fn wrap_position_is_modulo() {
    let s = build(empty_cells(5, 5), 5, 5, (2, 2), vec![], 1);
    assert_eq!(s.wrap_position(7, 9), (2, 4));
    assert_eq!(s.wrap_position(4, 0), (4, 0));
}

#[test]
fn heuristic_is_manhattan_distance() {
    assert_eq!(GameState::heuristic((1, 2), (4, 6)), 7);
    assert_eq!(GameState::heuristic((4, 6), (1, 2)), 7);
    assert_eq!(GameState::heuristic((3, 3), (3, 3)), 0);
}

#[test]
fn speeds_are_fixed() {
    assert_eq!(Robot::default_speed(), 1);
    assert_eq!(Robot::increased_speed(), 4);
}

#[test]
fn from_parts_rejects_bad_input() {
    // a robot standing outside the grid
    let r = GameState::from_parts(
        {
            let mut c = empty_cells(10, 10);
            c[5 * 10 + 5] = Cell::Base;
            c
        },
        10,
        10,
        (5, 5),
        vec![explorer(50, 1)],
        1,
    );
    assert!(r.is_none());
    // no Base cell at the base position
    let r = GameState::from_parts(empty_cells(10, 10), 10, 10, (5, 5), vec![], 1);
    assert!(r.is_none());
    // two robots claiming the same reserved cell
    let mut cells = empty_cells(10, 10);
    cells[5 * 10 + 5] = Cell::Base;
    cells[2 * 10 + 2] = Cell::ReservedEnergy;
    let mut a = explorer(5, 5);
    a.resource_coords = Some((2, 2));
    let mut b = explorer(5, 5);
    b.resource_coords = Some((2, 2));
    let r = GameState::from_parts(cells, 10, 10, (5, 5), vec![a, b], 1);
    assert!(r.is_none());
}

#[derive(Clone, Copy, PartialEq, Eq, Debug)]
enum Phase {
    Wandering,
    Reporting,
    Fetching,
    Hauling,
}

fn phase_of(r: &Robot) -> Phase {
    match (r.role, r.resource_coords.is_some(), r.carrying.is_some()) {
        (Role::Explorer, false, _) => Phase::Wandering,
        (Role::Explorer, true, _) => Phase::Reporting,
        (Role::Extractor, _, false) => Phase::Fetching,
        (Role::Extractor, _, true) => Phase::Hauling,
    }
}

#[test]
fn single_energy_delivery_runs_the_whole_role_cycle() {
    // one explorer at the base, one Energy resource right next to it
    let mut cells = empty_cells(10, 10);
    cells[4 * 10 + 5] = Cell::Energy;
    let mut s = build(cells, 10, 10, (5, 5), vec![explorer(5, 5)], 42);
    let mut phases = vec![phase_of(&s.robots[0])];
    let mut ticks = 0u64;
    while s.energy_score == 0 || phase_of(&s.robots[0]) != Phase::Wandering {
        s.step();
        let p = phase_of(&s.robots[0]);
        if *phases.last().unwrap() != p {
            phases.push(p);
        }
        ticks += 1;
        assert!(ticks < 200_000, "no delivery after {} ticks", ticks);
    }
    assert_eq!(
        phases,
        vec![Phase::Wandering, Phase::Reporting, Phase::Fetching, Phase::Hauling, Phase::Wandering]
    );
    assert_eq!(s.energy_score, 1);
    assert_eq!(s.crystal_score, 0);
    assert_eq!(s.map.cells[4 * 10 + 5], Cell::Empty);
    assert!(s.is_over());
}

#[test]
fn all_resources_are_eventually_delivered() {
    // two explorers, three resources: the run ends with everything scored
    let mut cells = empty_cells(8, 8);
    cells[3 * 8 + 3] = Cell::Energy;
    cells[5 * 8 + 2] = Cell::Crystal;
    cells[6 * 8 + 6] = Cell::Energy;
    let mut s = build(cells, 8, 8, (4, 4), vec![explorer(4, 4), explorer(4, 4)], 11);
    let mut ticks = 0u64;
    while (s.crystal_score as u64 + s.energy_score as u64) < 3 {
        s.step();
        ticks += 1;
        assert!(ticks < 500_000, "resources still out after {} ticks", ticks);
    }
    assert!(s.is_over());
    assert_eq!(s.crystal_score, 1);
    assert_eq!(s.energy_score, 2);
    assert!(s.game_over);
}

#[test]
fn reservation_blocks_the_second_robot() {
    // a reserved cell is never claimed again: scan a state where one
    // robot holds the claim and step many times
    let mut cells = empty_cells(9, 9);
    cells[2 * 9 + 2] = Cell::ReservedCrystal;
    let mut holder = explorer(4, 4);
    holder.resource_coords = Some((2, 2));
    let mut s = build(cells, 9, 9, (4, 4), vec![holder, explorer(4, 4)], 3);
    for _ in 0..2000 {
        s.step();
        let claims: Vec<(usize, usize)> =
            s.robots.iter().filter_map(|r| r.resource_coords).collect();
        for i in 0..claims.len() {
            for j in i + 1..claims.len() {
                assert_ne!(claims[i], claims[j]);
            }
        }
    }
}
