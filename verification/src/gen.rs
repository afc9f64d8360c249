//! Procedural map generation: seeded random obstacles, a border ring, a
//! randomly chosen base with a cleared neighborhood, and randomly placed
//! resources.

use vstd::prelude::*;
use crate::{Cell, Role, is_reserved, is_unit};
use crate::grid::{Grid, kind_count, lemma_kind_count_update, lemma_kind_count_bounds,
    lemma_area_bound, lemma_flat_index_in_range, units_free, reserved_free, base_free,
    lemma_units_free_update, lemma_units_free_count, lemma_base_free_update};
use crate::robot::{Robot, lemma_carried_count_zero};
use crate::rng::{SimRng, rng_from_seed, draw_below};
use crate::state::{DiscoveryMap, GameState};
use crate::pathfind::dist1;

verus! {

/// The map could not be generated: random placement found no Empty cell
/// left for the base or a resource.
#[derive(Clone, Copy, Debug, PartialEq, Eq, Structural)]
pub enum ConfigError {
    NoEmptyCell,
}

/// Energy cells placed at generation time.
pub const ENERGY_COUNT: usize = 5;

/// Crystal cells placed at generation time.
pub const CRYSTAL_COUNT: usize = 10;

/// Percentage of interior cells that the seeded sampling turns into
/// obstacles.
pub const OBSTACLE_PERCENT: usize = 20;

/// Random placement gives up after this many draws.
pub const PLACE_ATTEMPTS: usize = 10000;

/// Places `quantity` cells of `cell_type` uniformly at random among the
/// currently Empty cells, retrying occupied draws. Returns the first
/// placed position on full success and `None` otherwise (nothing to
/// place, or the attempt budget ran out on a crowded map). Only Empty
/// cells are ever overwritten.
pub fn place_randomly(map: &mut Grid, rng: &mut SimRng, cell_type: Cell, quantity: usize) -> (r:
    Option<(usize, usize)>)
    requires
        old(map).wf(),
        cell_type == Cell::Energy || cell_type == Cell::Crystal,
    ensures
        final(map).wf(),
        final(map).width == old(map).width,
        final(map).height == old(map).height,
        forall|k: int|
            0 <= k < old(map).cells@.len() && #[trigger] final(map).cells@[k] != old(
                map,
            ).cells@[k] ==> (old(map).cells@[k] == Cell::Empty && final(map).cells@[k]
                == cell_type),
        forall|i: int, j: int|
            old(map).in_bounds(i, j) && #[trigger] final(map).cell(i, j) != old(map).cell(i, j)
                ==> (old(map).cell(i, j) == Cell::Empty && final(map).cell(i, j) == cell_type),
        r is Some ==> kind_count(final(map).cells@, cell_type) == kind_count(
            old(map).cells@,
            cell_type,
        ) + quantity,
        cell_type == Cell::Energy ==> kind_count(final(map).cells@, Cell::Crystal) == kind_count(
            old(map).cells@,
            Cell::Crystal,
        ),
        cell_type == Cell::Crystal ==> kind_count(final(map).cells@, Cell::Energy) == kind_count(
            old(map).cells@,
            Cell::Energy,
        ),
        reserved_free(old(map).cells@) ==> reserved_free(final(map).cells@),
        quantity == 0 ==> r is None && *final(map) == *old(map),
        // `None` only when there was nothing to place or the draw budget
        // ran out before every unit found an Empty cell
        r is None ==> quantity == 0 || kind_count(final(map).cells@, cell_type) < kind_count(
            old(map).cells@,
            cell_type,
        ) + quantity,
        r is Some ==> {
            let p = r->Some_0;
            &&& final(map).in_bounds(p.0 as int, p.1 as int)
            &&& final(map).cell(p.0 as int, p.1 as int) == cell_type
        },
{
    let mut placed: usize = 0;
    let mut attempts: usize = 0;
    let mut first: Option<(usize, usize)> = None;
    while placed < quantity && attempts < PLACE_ATTEMPTS
        invariant
            old(map).wf(),
            map.wf(),
            map.width == old(map).width,
            map.height == old(map).height,
            map.cells@.len() == old(map).cells@.len(),
            cell_type == Cell::Energy || cell_type == Cell::Crystal,
            placed <= quantity,
            attempts <= PLACE_ATTEMPTS,
            forall|k: int|
                0 <= k < old(map).cells@.len() && #[trigger] map.cells@[k] != old(map).cells@[k]
                    ==> (old(map).cells@[k] == Cell::Empty && map.cells@[k] == cell_type),
            kind_count(map.cells@, cell_type) == kind_count(old(map).cells@, cell_type) + placed,
            cell_type == Cell::Energy ==> kind_count(map.cells@, Cell::Crystal) == kind_count(
                old(map).cells@,
                Cell::Crystal,
            ),
            cell_type == Cell::Crystal ==> kind_count(map.cells@, Cell::Energy) == kind_count(
                old(map).cells@,
                Cell::Energy,
            ),
            placed == 0 ==> *map == *old(map),
            placed > 0 ==> first is Some,
            first is Some ==> {
                let p = first->Some_0;
                &&& map.in_bounds(p.0 as int, p.1 as int)
                &&& map.cell(p.0 as int, p.1 as int) == cell_type
            },
        decreases PLACE_ATTEMPTS - attempts,
    {
        attempts = attempts + 1;
        let x = draw_below(rng, map.width);
        let y = draw_below(rng, map.height);
        let c = map.get(x, y);
        if c == Cell::Empty {
            let ghost prev = *map;
            proof {
                lemma_flat_index_in_range(
                    x as int,
                    y as int,
                    map.width as int,
                    map.height as int,
                );
                lemma_kind_count_update(
                    map.cells@,
                    Cell::Energy,
                    y as int * map.width as int + x as int,
                    cell_type,
                );
                lemma_kind_count_update(
                    map.cells@,
                    Cell::Crystal,
                    y as int * map.width as int + x as int,
                    cell_type,
                );
            }
            map.set(x, y, cell_type);
            proof {
                let idx = y as int * prev.width as int + x as int;
                assert(prev.cells@[idx] == Cell::Empty);
                assert forall|k: int|
                    0 <= k < old(map).cells@.len() && #[trigger] map.cells@[k] != old(
                    map,
                ).cells@[k] implies (old(map).cells@[k] == Cell::Empty && map.cells@[k]
                    == cell_type) by {
                    if k != idx {
                        assert(map.cells@[k] == prev.cells@[k]);
                    }
                }
            }
            if first.is_none() {
                first = Some((x, y));
            }
            placed = placed + 1;
        }
    }
    proof {
        assert forall|i: int, j: int|
            old(map).in_bounds(i, j) && #[trigger] map.cell(i, j) != old(map).cell(i, j) implies (
        old(map).cell(i, j) == Cell::Empty && map.cell(i, j) == cell_type) by {
            lemma_flat_index_in_range(i, j, old(map).width as int, old(map).height as int);
        }
        if reserved_free(old(map).cells@) {
            assert forall|k: int| 0 <= k < map.cells@.len() implies !is_reserved(
                #[trigger] map.cells@[k],
            ) by {
                if map.cells@[k] == old(map).cells@[k] {
                    assert(!is_reserved(old(map).cells@[k]));
                }
            }
        }
    }
    if placed == quantity && quantity > 0 {
        first
    } else {
        None
    }
}

impl GameState {
    /// Builds a fresh simulation from a seed: obstacles sampled per
    /// interior cell, an Obstacle ring on the border, a base chosen
    /// uniformly among Empty cells whose 7x7 neighborhood (clamped to the
    /// interior) is then cleared, and the fixed quantities of Energy and
    /// Crystal placed on remaining Empty cells. Three Explorer robots
    /// start at the base. Fails with a configuration error when random
    /// placement cannot find an Empty cell.
    pub fn new(seed: u64, width: usize, height: usize) -> (r: Result<GameState, ConfigError>)
        requires
            3 <= width <= 4096,
            3 <= height <= 4096,
        ensures
            match r {
                Ok(s) => {
                    &&& s.wf()
                    &&& s.map.width == width
                    &&& s.map.height == height
                    &&& 1 <= s.base_position.0 <= width - 2
                    &&& 1 <= s.base_position.1 <= height - 2
                    // the outer ring is all Obstacle
                    &&& forall|i: int|
                        0 <= i < width ==> s.map.cell(i, 0) == Cell::Obstacle && s.map.cell(
                            i,
                            height - 1,
                        ) == Cell::Obstacle
                    &&& forall|j: int|
                        0 <= j < height ==> s.map.cell(0, j) == Cell::Obstacle && s.map.cell(
                            width - 1,
                            j,
                        ) == Cell::Obstacle
                    // the clamped 7x7 neighborhood of the base holds no obstacle
                    &&& forall|i: int, j: int|
                        1 <= i <= width - 2 && 1 <= j <= height - 2 && dist1(
                            i,
                            s.base_position.0 as int,
                        ) <= 3 && dist1(j, s.base_position.1 as int) <= 3 ==> s.map.cell(i, j)
                            != Cell::Obstacle
                    &&& s.map.cell(
                        s.base_position.0 as int,
                        s.base_position.1 as int,
                    ) == Cell::Base
                    // and it is the only Base cell on the map
                    &&& forall|i: int, j: int|
                        s.map.in_bounds(i, j) ==> ((s.map.cell(i, j) == Cell::Base) <==> (i
                            == s.base_position.0 as int && j == s.base_position.1 as int))
                    // exactly the configured resources, none of them claimed yet
                    &&& kind_count(s.map.cells@, Cell::Energy) == ENERGY_COUNT
                    &&& kind_count(s.map.cells@, Cell::Crystal) == CRYSTAL_COUNT
                    &&& forall|i: int, j: int|
                        s.map.in_bounds(i, j) ==> !is_reserved(#[trigger] s.map.cell(i, j))
                    // three fresh explorers at the base
                    &&& s.robots@.len() == 3
                    &&& forall|k: int|
                        0 <= k < 3 ==> {
                            let rb = #[trigger] s.robots@[k];
                            &&& rb.x == s.base_position.0
                            &&& rb.y == s.base_position.1
                            &&& rb.role == Role::Explorer
                            &&& rb.resource_coords is None
                            &&& rb.carrying is None
                            &&& rb.speed == 1
                            &&& rb.move_counter == 0
                        }
                    &&& s.crystal_score == 0
                    &&& s.energy_score == 0
                    &&& !s.game_over
                    // everything starts under fog
                    &&& forall|i: int, j: int|
                        s.discovered.in_bounds(i, j) ==> !(#[trigger] s.discovered.at(i, j))
                },
                Err(e) => e == ConfigError::NoEmptyCell,
            },
    {
        let mut rng = rng_from_seed(seed);
        proof {
            lemma_area_bound(width as int, height as int);
        }
        let size: usize = width * height;

        // seeded per-cell obstacle sampling
        let mut cells: Vec<Cell> = Vec::new();
        while cells.len() < size
            invariant
                cells@.len() <= size,
                forall|k: int| 0 <= k < cells@.len() ==> !is_unit(#[trigger] cells@[k]),
                forall|k: int| 0 <= k < cells@.len() ==> #[trigger] cells@[k] != Cell::Base,
            decreases size - cells@.len(),
        {
            let v = draw_below(&mut rng, 100);
            if v < OBSTACLE_PERCENT {
                cells.push(Cell::Obstacle);
            } else {
                cells.push(Cell::Empty);
            }
        }
        let mut map = Grid { cells, width, height };
        assert(units_free(map.cells@));
        assert(base_free(map.cells@));

        // the rendered border: a ring of Obstacle cells
        let mut x: usize = 0;
        while x < width
            invariant
                map.wf(),
                map.width == width,
                map.height == height,
                3 <= width <= 4096,
                3 <= height <= 4096,
                x <= width,
                units_free(map.cells@),
                base_free(map.cells@),
                forall|i: int|
                    0 <= i < x ==> map.cell(i, 0) == Cell::Obstacle && map.cell(i, height - 1)
                        == Cell::Obstacle,
            decreases width - x,
        {
            proof {
                lemma_flat_index_in_range(x as int, 0, width as int, height as int);
                lemma_units_free_update(map.cells@, x as int, Cell::Obstacle);
                lemma_base_free_update(map.cells@, x as int, Cell::Obstacle);
            }
            map.set(x, 0, Cell::Obstacle);
            proof {
                lemma_flat_index_in_range(x as int, height - 1, width as int, height as int);
                lemma_units_free_update(
                    map.cells@,
                    (height - 1) * width as int + x as int,
                    Cell::Obstacle,
                );
                lemma_base_free_update(
                    map.cells@,
                    (height - 1) * width as int + x as int,
                    Cell::Obstacle,
                );
            }
            map.set(x, height - 1, Cell::Obstacle);
            x = x + 1;
        }
        let mut y: usize = 0;
        while y < height
            invariant
                map.wf(),
                map.width == width,
                map.height == height,
                3 <= width <= 4096,
                3 <= height <= 4096,
                y <= height,
                units_free(map.cells@),
                base_free(map.cells@),
                forall|i: int|
                    0 <= i < width ==> map.cell(i, 0) == Cell::Obstacle && map.cell(i, height - 1)
                        == Cell::Obstacle,
                forall|j: int|
                    0 <= j < y ==> map.cell(0, j) == Cell::Obstacle && map.cell(width - 1, j)
                        == Cell::Obstacle,
            decreases height - y,
        {
            proof {
                lemma_flat_index_in_range(0, y as int, width as int, height as int);
                lemma_units_free_update(map.cells@, y as int * width as int, Cell::Obstacle);
                lemma_base_free_update(map.cells@, y as int * width as int, Cell::Obstacle);
            }
            map.set(0, y, Cell::Obstacle);
            proof {
                lemma_flat_index_in_range(width - 1, y as int, width as int, height as int);
                lemma_units_free_update(
                    map.cells@,
                    y as int * width as int + (width - 1),
                    Cell::Obstacle,
                );
                lemma_base_free_update(
                    map.cells@,
                    y as int * width as int + (width - 1),
                    Cell::Obstacle,
                );
            }
            map.set(width - 1, y, Cell::Obstacle);
            y = y + 1;
        }

        // the base: a uniformly drawn Empty cell
        let mut base_x: usize = 0;
        let mut base_y: usize = 0;
        let mut found = false;
        let mut attempts: usize = 0;
        while !found && attempts < PLACE_ATTEMPTS
            invariant
                map.wf(),
                map.width == width,
                map.height == height,
                3 <= width <= 4096,
                3 <= height <= 4096,
                units_free(map.cells@),
                base_free(map.cells@),
                forall|i: int|
                    0 <= i < width ==> map.cell(i, 0) == Cell::Obstacle && map.cell(i, height - 1)
                        == Cell::Obstacle,
                forall|j: int|
                    0 <= j < height ==> map.cell(0, j) == Cell::Obstacle && map.cell(width - 1, j)
                        == Cell::Obstacle,
                found ==> map.in_bounds(base_x as int, base_y as int) && map.cell(
                    base_x as int,
                    base_y as int,
                ) == Cell::Empty,
            decreases (if found { 0int } else { 1int }), PLACE_ATTEMPTS - attempts,
        {
            attempts = attempts + 1;
            let bx = draw_below(&mut rng, width);
            let by = draw_below(&mut rng, height);
            if map.get(bx, by) == Cell::Empty {
                base_x = bx;
                base_y = by;
                found = true;
            }
        }
        if !found {
            return Err(ConfigError::NoEmptyCell);
        }
        proof {
            // an Empty cell cannot lie on the all-Obstacle border
            assert(map.cell(base_x as int, 0) == Cell::Obstacle);
            assert(map.cell(base_x as int, height - 1) == Cell::Obstacle);
            assert(map.cell(0, base_y as int) == Cell::Obstacle);
            assert(map.cell(width - 1, base_y as int) == Cell::Obstacle);
        }
        assert(1 <= base_x <= width - 2 && 1 <= base_y <= height - 2);

        // clear the 7x7 neighborhood of the base, clamped to the interior
        // so the border ring stays intact
        let mut dy: usize = 0;
        while dy < 7
            invariant
                map.wf(),
                map.width == width,
                map.height == height,
                3 <= width <= 4096,
                3 <= height <= 4096,
                1 <= base_x <= width - 2,
                1 <= base_y <= height - 2,
                dy <= 7,
                units_free(map.cells@),
                base_free(map.cells@),
                forall|i: int|
                    0 <= i < width ==> map.cell(i, 0) == Cell::Obstacle && map.cell(i, height - 1)
                        == Cell::Obstacle,
                forall|j: int|
                    0 <= j < height ==> map.cell(0, j) == Cell::Obstacle && map.cell(width - 1, j)
                        == Cell::Obstacle,
                forall|i: int, j: int|
                    1 <= i <= width - 2 && 1 <= j <= height - 2 && dist1(i, base_x as int) <= 3
                        && dist1(j, base_y as int) <= 3 && j - base_y + 3 < dy ==> map.cell(i, j)
                        == Cell::Empty,
            decreases 7 - dy,
        {
            let t = base_y + dy;
            let ty: usize = if t < 4 {
                1
            } else if t - 3 > height - 2 {
                height - 2
            } else {
                t - 3
            };
            let mut dx: usize = 0;
            while dx < 7
                invariant
                    map.wf(),
                    map.width == width,
                    map.height == height,
                    3 <= width <= 4096,
                    3 <= height <= 4096,
                    1 <= base_x <= width - 2,
                    1 <= base_y <= height - 2,
                    dy < 7,
                    dx <= 7,
                    1 <= ty <= height - 2,
                    ty as int == if base_y + dy < 4 {
                        1int
                    } else if base_y + dy - 3 > height - 2 {
                        height - 2
                    } else {
                        base_y + dy - 3
                    },
                    units_free(map.cells@),
                    base_free(map.cells@),
                base_free(map.cells@),
                    forall|i: int|
                        0 <= i < width ==> map.cell(i, 0) == Cell::Obstacle && map.cell(
                            i,
                            height - 1,
                        ) == Cell::Obstacle,
                    forall|j: int|
                        0 <= j < height ==> map.cell(0, j) == Cell::Obstacle && map.cell(
                            width - 1,
                            j,
                        ) == Cell::Obstacle,
                    forall|i: int, j: int|
                        1 <= i <= width - 2 && 1 <= j <= height - 2 && dist1(i, base_x as int) <= 3
                            && dist1(j, base_y as int) <= 3 && j - base_y + 3 < dy ==> map.cell(
                            i,
                            j,
                        ) == Cell::Empty,
                    forall|i: int|
                        1 <= i <= width - 2 && dist1(i, base_x as int) <= 3 && i - base_x + 3 < dx
                            ==> map.cell(i, ty as int) == Cell::Empty,
                decreases 7 - dx,
            {
                let s = base_x + dx;
                let tx: usize = if s < 4 {
                    1
                } else if s - 3 > width - 2 {
                    width - 2
                } else {
                    s - 3
                };
                proof {
                    lemma_flat_index_in_range(tx as int, ty as int, width as int, height as int);
                    lemma_units_free_update(
                        map.cells@,
                        ty as int * width as int + tx as int,
                        Cell::Empty,
                    );
                    lemma_base_free_update(
                        map.cells@,
                        ty as int * width as int + tx as int,
                        Cell::Empty,
                    );
                }
                map.set(tx, ty, Cell::Empty);
                dx = dx + 1;
            }
            dy = dy + 1;
        }

        // restore the base cell itself
        proof {
            lemma_flat_index_in_range(base_x as int, base_y as int, width as int, height as int);
            lemma_units_free_update(
                map.cells@,
                base_y as int * width as int + base_x as int,
                Cell::Base,
            );
        }
        let ghost cleared = map;
        map.set(base_x, base_y, Cell::Base);
        proof {
            lemma_units_free_count(map.cells@);
            assert forall|i: int, j: int|
                map.in_bounds(i, j) && (i != base_x || j != base_y) implies map.cell(i, j)
                != Cell::Base by {
                assert(map.cell(i, j) == cleared.cell(i, j));
                lemma_flat_index_in_range(i, j, width as int, height as int);
            }
            assert forall|i: int, j: int|
                1 <= i <= width - 2 && 1 <= j <= height - 2 && dist1(i, base_x as int) <= 3
                    && dist1(j, base_y as int) <= 3 implies map.cell(i, j) != Cell::Obstacle by {
                if i != base_x || j != base_y {
                    assert(map.cell(i, j) == cleared.cell(i, j));
                }
            }
        }
        let ghost based = map;

        // the resources, on remaining Empty cells
        let placed_energy = place_randomly(&mut map, &mut rng, Cell::Energy, ENERGY_COUNT);
        if placed_energy.is_none() {
            return Err(ConfigError::NoEmptyCell);
        }
        let ghost with_energy = map;
        let placed_crystal = place_randomly(&mut map, &mut rng, Cell::Crystal, CRYSTAL_COUNT);
        if placed_crystal.is_none() {
            return Err(ConfigError::NoEmptyCell);
        }
        proof {
            // placement overwrites Empty cells only, so the border, the
            // base and the cleared neighborhood survive it
            assert forall|i: int|
                0 <= i < width implies map.cell(i, 0) == Cell::Obstacle && map.cell(i, height - 1)
                == Cell::Obstacle by {
                assert(based.cell(i, 0) == Cell::Obstacle);
                assert(based.cell(i, height - 1) == Cell::Obstacle);
            }
            assert forall|j: int|
                0 <= j < height implies map.cell(0, j) == Cell::Obstacle && map.cell(
                width - 1,
                j,
            ) == Cell::Obstacle by {
                assert(based.cell(0, j) == Cell::Obstacle);
                assert(based.cell(width - 1, j) == Cell::Obstacle);
            }
            assert forall|i: int, j: int|
                1 <= i <= width - 2 && 1 <= j <= height - 2 && dist1(i, base_x as int) <= 3
                    && dist1(j, base_y as int) <= 3 implies map.cell(i, j) != Cell::Obstacle by {
                assert(based.cell(i, j) != Cell::Obstacle);
                if map.cell(i, j) != based.cell(i, j) {
                    if with_energy.cell(i, j) != based.cell(i, j) {
                        assert(with_energy.cell(i, j) == Cell::Energy);
                    }
                }
            }
            assert(map.cell(base_x as int, base_y as int) == Cell::Base);
            assert forall|i: int, j: int|
                map.in_bounds(i, j) && (i != base_x || j != base_y) implies map.cell(i, j)
                != Cell::Base by {
                assert(based.cell(i, j) != Cell::Base);
                if map.cell(i, j) != based.cell(i, j) {
                    if with_energy.cell(i, j) != based.cell(i, j) {
                        assert(with_energy.cell(i, j) == Cell::Energy);
                    }
                }
            }
        }

        // three explorers, parked at the base
        let mut robots: Vec<Robot> = Vec::new();
        let mut k: usize = 0;
        while k < 3
            invariant
                k <= 3,
                1 <= base_x <= width - 2,
                1 <= base_y <= height - 2,
                robots@.len() == k,
                forall|m: int|
                    0 <= m < k ==> {
                        let rb = #[trigger] robots@[m];
                        &&& rb.x == base_x
                        &&& rb.y == base_y
                        &&& rb.role == Role::Explorer
                        &&& rb.resource_coords is None
                        &&& rb.carrying is None
                        &&& rb.speed == 1
                        &&& rb.move_counter == 0
                    },
            decreases 3 - k,
        {
            robots.push(
                Robot {
                    x: base_x,
                    y: base_y,
                    role: Role::Explorer,
                    resource_coords: None,
                    carrying: None,
                    speed: Robot::default_speed(),
                    move_counter: 0,
                },
            );
            k = k + 1;
        }

        // everything starts undiscovered
        let mut seen: Vec<bool> = Vec::new();
        while seen.len() < size
            invariant
                seen@.len() <= size,
                forall|m: int| 0 <= m < seen@.len() ==> !seen@[m],
            decreases size - seen@.len(),
        {
            seen.push(false);
        }
        let discovered = DiscoveryMap { seen, width, height };
        proof {
            assert forall|i: int, j: int| discovered.in_bounds(i, j) implies !discovered.at(
                i,
                j,
            ) by {
                lemma_flat_index_in_range(i, j, width as int, height as int);
            }
        }

        let state = GameState {
            map,
            base_position: (base_x, base_y),
            robots,
            crystal_score: 0,
            energy_score: 0,
            game_over: false,
            discovered,
            rng,
        };
        proof {
            lemma_kind_count_bounds(state.map.cells@, Cell::Energy);
            lemma_kind_count_bounds(state.map.cells@, Cell::Crystal);
            lemma_carried_count_zero(state.robots@, Cell::Energy);
            lemma_carried_count_zero(state.robots@, Cell::Crystal);
            assert forall|i: int, j: int| state.map.in_bounds(i, j) implies !is_reserved(
                #[trigger] state.map.cell(i, j),
            ) by {
                lemma_flat_index_in_range(i, j, width as int, height as int);
            }
        }
        Ok(state)
    }
}

} // verus!
