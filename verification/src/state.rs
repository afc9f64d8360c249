//! The simulation state: grid, discovery map, robots, scores, and the
//! per-tick driver.

use vstd::prelude::*;
use crate::{Cell, Role, is_reserved, is_resource, is_unit, reserved_of, counts_as};
use crate::grid::{Grid, kind_count, lemma_kind_count_update};
use crate::robot::{Robot, robot_ok, carry_contrib, carried_count, lemma_carried_count_update,
    lemma_carried_count_bound, MOVE_THRESHOLD};
use crate::rng::SimRng;

verus! {

/// Per-cell "has been seen" state, same dimensions as the grid. Cells are
/// only ever switched on, never reset.
pub struct DiscoveryMap {
    pub seen: Vec<bool>,
    pub width: usize,
    pub height: usize,
}

impl DiscoveryMap {
    pub open spec fn wf(self) -> bool {
        &&& 1 <= self.width <= crate::grid::MAX_SIDE
        &&& 1 <= self.height <= crate::grid::MAX_SIDE
        &&& self.seen@.len() == self.width * self.height
    }

    pub open spec fn in_bounds(self, x: int, y: int) -> bool {
        0 <= x < self.width && 0 <= y < self.height
    }

    pub open spec fn at(self, x: int, y: int) -> bool {
        self.seen@[y * self.width + x]
    }

    /// O(1) lookup of the fog state of one cell.
    pub fn is_discovered(&self, x: usize, y: usize) -> (r: bool)
        requires
            self.wf(),
            self.in_bounds(x as int, y as int),
        ensures
            r == self.at(x as int, y as int),
    {
        proof {
            crate::grid::lemma_flat_index_in_range(
                x as int,
                y as int,
                self.width as int,
                self.height as int,
            );
        }
        self.seen[y * self.width + x]
    }

    fn set_seen(&mut self, x: usize, y: usize)
        requires
            old(self).wf(),
            old(self).in_bounds(x as int, y as int),
        ensures
            final(self).wf(),
            final(self).width == old(self).width,
            final(self).height == old(self).height,
            final(self).at(x as int, y as int),
            forall|i: int, j: int|
                old(self).in_bounds(i, j) && (i != x || j != y) ==> final(self).at(i, j) == old(
                    self,
                ).at(i, j),
    {
        proof {
            crate::grid::lemma_flat_index_in_range(
                x as int,
                y as int,
                self.width as int,
                self.height as int,
            );
        }
        let idx: usize = y * self.width + x;
        self.seen.set(idx, true);
        proof {
            assert forall|i: int, j: int|
                old(self).in_bounds(i, j) && (i != x || j != y) implies self.at(i, j) == old(
                self,
            ).at(i, j) by {
                crate::grid::lemma_flat_index_in_range(
                    i,
                    j,
                    old(self).width as int,
                    old(self).height as int,
                );
                crate::grid::lemma_flat_index_injective(
                    i,
                    j,
                    x as int,
                    y as int,
                    old(self).width as int,
                    old(self).height as int,
                );
            }
        }
    }

    /// Marks the whole square of side `2 * radius + 1` around the center
    /// as seen, clamped at the grid bounds (not wrapped: a robot near the
    /// edge reveals a truncated neighborhood).
    pub fn mark_seen(&mut self, cx: usize, cy: usize, radius: usize)
        requires
            old(self).wf(),
            old(self).in_bounds(cx as int, cy as int),
            radius <= crate::grid::MAX_SIDE,
        ensures
            final(self).wf(),
            final(self).width == old(self).width,
            final(self).height == old(self).height,
            forall|i: int, j: int|
                old(self).in_bounds(i, j) && cx - radius <= i <= cx + radius && cy - radius <= j
                    <= cy + radius ==> final(self).at(i, j),
            forall|i: int, j: int|
                old(self).in_bounds(i, j) && !(cx - radius <= i <= cx + radius && cy - radius <= j
                    <= cy + radius) ==> final(self).at(i, j) == old(self).at(i, j),
            forall|i: int, j: int|
                old(self).in_bounds(i, j) && old(self).at(i, j) ==> final(self).at(i, j),
    {
        let x0: usize = if cx >= radius {
            cx - radius
        } else {
            0
        };
        let x1: usize = if cx + radius <= self.width - 1 {
            cx + radius
        } else {
            self.width - 1
        };
        let y0: usize = if cy >= radius {
            cy - radius
        } else {
            0
        };
        let y1: usize = if cy + radius <= self.height - 1 {
            cy + radius
        } else {
            self.height - 1
        };
        let mut j: usize = y0;
        while j <= y1
            invariant
                old(self).wf(),
                self.wf(),
                self.width == old(self).width,
                self.height == old(self).height,
                y0 <= j <= y1 + 1,
                y1 < self.height,
                x0 <= x1 < self.width,
                old(self).in_bounds(cx as int, cy as int),
                x0 as int == if cx >= radius { cx - radius } else { 0int },
                x1 as int == if cx + radius <= self.width - 1 { cx + radius } else {
                    self.width - 1
                },
                y0 as int == if cy >= radius { cy - radius } else { 0int },
                y1 as int == if cy + radius <= self.height - 1 { cy + radius } else {
                    self.height - 1
                },
                forall|ii: int, jj: int|
                    self.in_bounds(ii, jj) && x0 <= ii <= x1 && y0 <= jj < j ==> self.at(ii, jj),
                forall|ii: int, jj: int|
                    self.in_bounds(ii, jj) && !(x0 <= ii <= x1 && y0 <= jj <= y1) ==> self.at(
                        ii,
                        jj,
                    ) == old(self).at(ii, jj),
                forall|ii: int, jj: int|
                    self.in_bounds(ii, jj) && old(self).at(ii, jj) ==> self.at(ii, jj),
            decreases y1 + 1 - j,
        {
            let mut i: usize = x0;
            while i <= x1
                invariant
                    old(self).wf(),
                    self.wf(),
                    self.width == old(self).width,
                    self.height == old(self).height,
                    x0 <= i <= x1 + 1,
                    x1 < self.width,
                    y0 <= j <= y1,
                    y1 < self.height,
                    forall|ii: int, jj: int|
                        self.in_bounds(ii, jj) && x0 <= ii <= x1 && y0 <= jj < j ==> self.at(
                            ii,
                            jj,
                        ),
                    forall|ii: int| x0 <= ii < i ==> self.at(ii, j as int),
                    forall|ii: int, jj: int|
                        self.in_bounds(ii, jj) && !(x0 <= ii <= x1 && y0 <= jj <= y1) ==> self.at(
                            ii,
                            jj,
                        ) == old(self).at(ii, jj),
                    forall|ii: int, jj: int|
                        self.in_bounds(ii, jj) && old(self).at(ii, jj) ==> self.at(ii, jj),
                decreases x1 + 1 - i,
            {
                self.set_seen(i, j);
                i = i + 1;
            }
            j = j + 1;
        }
    }
}

/// The whole simulation: map, discovery state, robots, scores, and the
/// seeded random source driving exploration.
pub struct GameState {
    pub map: Grid,
    pub base_position: (usize, usize),
    pub robots: Vec<Robot>,
    pub crystal_score: u32,
    pub energy_score: u32,
    pub game_over: bool,
    pub discovered: DiscoveryMap,
    pub rng: SimRng,
}

impl GameState {
    /// Grid total of `kind` still on the map, carried, or delivered.
    /// This is the quantity that every tick preserves.
    pub open spec fn kind_total(self, kind: Cell) -> int {
        kind_count(self.map.cells@, kind) + carried_count(self.robots@, kind) + (if kind
            == Cell::Crystal {
            self.crystal_score as int
        } else {
            self.energy_score as int
        })
    }

    /// Claimed resources of two robots never coincide.
    pub open spec fn claims_distinct(self) -> bool {
        crate::robot::distinct_claims(self.robots@)
    }

    /// Everything that must hold of a simulation state between ticks.
    pub open spec fn wf(self) -> bool {
        &&& self.map.wf()
        &&& self.discovered.wf()
        &&& self.discovered.width == self.map.width
        &&& self.discovered.height == self.map.height
        &&& self.map.in_bounds(self.base_position.0 as int, self.base_position.1 as int)
        &&& self.map.cell(self.base_position.0 as int, self.base_position.1 as int) == Cell::Base
        &&& forall|i: int|
            0 <= i < self.robots@.len() ==> robot_ok(#[trigger] self.robots@[i], self.map)
        &&& self.claims_distinct()
        &&& self.kind_total(Cell::Crystal) <= u32::MAX
        &&& self.kind_total(Cell::Energy) <= u32::MAX
        &&& (self.game_over ==> forall|i: int, j: int|
            self.map.in_bounds(i, j) ==> !is_unit(self.map.cell(i, j)))
    }

    /// True exactly when no undelivered resource remains anywhere on the
    /// map: every Crystal, Energy, ReservedCrystal and ReservedEnergy cell
    /// is gone. Recomputed as a pure scan of the grid.
    pub fn check_game_over(&self) -> (r: bool)
        requires
            self.map.wf(),
        ensures
            r <==> (forall|i: int, j: int|
                self.map.in_bounds(i, j) ==> !is_unit(self.map.cell(i, j))),
    {
        let w = self.map.width;
        let h = self.map.height;
        let mut y: usize = 0;
        while y < h
            invariant
                self.map.wf(),
                w == self.map.width,
                h == self.map.height,
                y <= h,
                forall|i: int, j: int|
                    self.map.in_bounds(i, j) && j < y ==> !is_unit(self.map.cell(i, j)),
            decreases h - y,
        {
            let mut x: usize = 0;
            while x < w
                invariant
                    self.map.wf(),
                    w == self.map.width,
                    h == self.map.height,
                    y < h,
                    x <= w,
                    forall|i: int, j: int|
                        self.map.in_bounds(i, j) && j < y ==> !is_unit(self.map.cell(i, j)),
                    forall|i: int| 0 <= i < x ==> !is_unit(self.map.cell(i, y as int)),
                decreases w - x,
            {
                let c = self.map.get(x, y);
                if matches!(c, Cell::Crystal | Cell::Energy | Cell::ReservedCrystal
                    | Cell::ReservedEnergy) {
                    proof {
                        assert(self.map.in_bounds(x as int, y as int) && is_unit(
                            self.map.cell(x as int, y as int),
                        ));
                    }
                    return false;
                }
                x = x + 1;
            }
            y = y + 1;
        }
        true
    }

    /// Whether the run is complete: all resources placed at generation
    /// time have been delivered.
    pub fn is_over(&self) -> (r: bool)
        requires
            self.map.wf(),
        ensures
            r <==> (forall|i: int, j: int|
                self.map.in_bounds(i, j) ==> !is_unit(self.map.cell(i, j))),
    {
        self.check_game_over()
    }

    /// The delivered counts, crystals first.
    pub fn scores(&self) -> (r: (u32, u32))
        ensures
            r.0 == self.crystal_score,
            r.1 == self.energy_score,
    {
        (self.crystal_score, self.energy_score)
    }
}

/// The first raw resource found in the clamped 3x3 neighborhood of
/// `(cx, cy)`, scanning row-major; `None` exactly when there is none.
pub fn scan_resource(map: &Grid, cx: usize, cy: usize) -> (r: Option<(usize, usize)>)
    requires
        map.wf(),
        map.in_bounds(cx as int, cy as int),
    ensures
        match r {
            Some(p) => {
                &&& map.in_bounds(p.0 as int, p.1 as int)
                &&& is_resource(map.cell(p.0 as int, p.1 as int))
                &&& cx - 1 <= p.0 <= cx + 1
                &&& cy - 1 <= p.1 <= cy + 1
                // the first hit in row-major scan order wins
                &&& forall|i: int, j: int|
                    map.in_bounds(i, j) && cx - 1 <= i <= cx + 1 && cy - 1 <= j <= cy + 1 && (j
                        < p.1 || (j == p.1 && i < p.0)) ==> !is_resource(map.cell(i, j))
            },
            None => forall|i: int, j: int|
                map.in_bounds(i, j) && cx - 1 <= i <= cx + 1 && cy - 1 <= j <= cy + 1
                    ==> !is_resource(map.cell(i, j)),
        },
{
    let x0: usize = if cx >= 1 {
        cx - 1
    } else {
        0
    };
    let x1: usize = if cx + 1 <= map.width - 1 {
        cx + 1
    } else {
        map.width - 1
    };
    let y0: usize = if cy >= 1 {
        cy - 1
    } else {
        0
    };
    let y1: usize = if cy + 1 <= map.height - 1 {
        cy + 1
    } else {
        map.height - 1
    };
    let mut j: usize = y0;
    while j <= y1
        invariant
            map.wf(),
            y0 <= j <= y1 + 1,
            y1 < map.height,
            x0 <= x1 < map.width,
            map.in_bounds(cx as int, cy as int),
            x0 as int == if cx >= 1 { cx - 1 } else { 0int },
            x1 as int == if cx + 1 <= map.width - 1 { cx + 1 } else { map.width - 1 },
            y0 as int == if cy >= 1 { cy - 1 } else { 0int },
            y1 as int == if cy + 1 <= map.height - 1 { cy + 1 } else { map.height - 1 },
            forall|ii: int, jj: int|
                map.in_bounds(ii, jj) && x0 <= ii <= x1 && y0 <= jj < j ==> !is_resource(
                    map.cell(ii, jj),
                ),
        decreases y1 + 1 - j,
    {
        let mut i: usize = x0;
        while i <= x1
            invariant
                map.wf(),
                x0 <= i <= x1 + 1,
                x1 < map.width,
                y0 <= j <= y1,
                y1 < map.height,
                map.in_bounds(cx as int, cy as int),
                x0 as int == if cx >= 1 { cx - 1 } else { 0int },
                x1 as int == if cx + 1 <= map.width - 1 { cx + 1 } else { map.width - 1 },
                y0 as int == if cy >= 1 { cy - 1 } else { 0int },
                y1 as int == if cy + 1 <= map.height - 1 { cy + 1 } else { map.height - 1 },
                forall|ii: int, jj: int|
                    map.in_bounds(ii, jj) && x0 <= ii <= x1 && y0 <= jj < j ==> !is_resource(
                        map.cell(ii, jj),
                    ),
                forall|ii: int| x0 <= ii < i ==> !is_resource(map.cell(ii, j as int)),
            decreases x1 + 1 - i,
        {
            let c = map.get(i, j);
            if matches!(c, Cell::Crystal | Cell::Energy) {
                return Some((i, j));
            }
            i = i + 1;
        }
        j = j + 1;
    }
    None
}

impl GameState {
    /// Advances one robot by one tick: throttling, then the role state
    /// machine. The contract pins down exactly how the grid may change
    /// (claims flip a raw resource to its Reserved form, pickups flip the
    /// robot's own reserved cell to Empty), that both resource kinds are
    /// conserved, and that discovery only grows.
    pub fn update_robot(&mut self, robot: &mut Robot)
        requires
            old(self).maps_wf(),
            old(self).map.in_bounds(
                old(self).base_position.0 as int,
                old(self).base_position.1 as int,
            ),
            old(self).map.cell(
                old(self).base_position.0 as int,
                old(self).base_position.1 as int,
            ) == Cell::Base,
            robot_ok(*old(robot), old(self).map),
            old(self).crystal_score + kind_count(old(self).map.cells@, Cell::Crystal)
                + carry_contrib(*old(robot), Cell::Crystal) <= u32::MAX,
            old(self).energy_score + kind_count(old(self).map.cells@, Cell::Energy)
                + carry_contrib(*old(robot), Cell::Energy) <= u32::MAX,
        ensures
            final(self).maps_wf(),
            final(self).map.width == old(self).map.width,
            final(self).map.height == old(self).map.height,
            final(self).base_position == old(self).base_position,
            final(self).map.cell(
                old(self).base_position.0 as int,
                old(self).base_position.1 as int,
            ) == Cell::Base,
            final(self).robots == old(self).robots,
            final(self).game_over == old(self).game_over,
            robot_ok(*final(robot), final(self).map),
            // every grid change is a claim by this robot or a pickup by this robot
            forall|i: int, j: int|
                old(self).map.in_bounds(i, j) && final(self).map.cell(i, j) != old(
                    self,
                ).map.cell(i, j) ==> ({
                    ||| {
                        &&& is_resource(old(self).map.cell(i, j))
                        &&& final(self).map.cell(i, j) == reserved_of(old(self).map.cell(i, j))
                        &&& old(robot).resource_coords is None
                        &&& final(robot).resource_coords == Some((i as usize, j as usize))
                    }
                    ||| {
                        &&& is_reserved(old(self).map.cell(i, j))
                        &&& final(self).map.cell(i, j) == Cell::Empty
                        &&& old(robot).resource_coords == Some((i as usize, j as usize))
                        &&& old(robot).carrying is None
                        &&& final(robot).carrying is Some
                    }
                }),
            // an assignment is kept, cleared, or claimed off a raw resource cell
            final(robot).resource_coords is Some ==> (final(robot).resource_coords == old(
                robot,
            ).resource_coords || (old(robot).resource_coords is None && is_resource(
                old(self).map.cell(
                    (final(robot).resource_coords->Some_0).0 as int,
                    (final(robot).resource_coords->Some_0).1 as int,
                ),
            ))),
            // resource conservation, per kind
            kind_count(final(self).map.cells@, Cell::Crystal) + carry_contrib(
                *final(robot),
                Cell::Crystal,
            ) + final(self).crystal_score == kind_count(old(self).map.cells@, Cell::Crystal)
                + carry_contrib(*old(robot), Cell::Crystal) + old(self).crystal_score,
            kind_count(final(self).map.cells@, Cell::Energy) + carry_contrib(
                *final(robot),
                Cell::Energy,
            ) + final(self).energy_score == kind_count(old(self).map.cells@, Cell::Energy)
                + carry_contrib(*old(robot), Cell::Energy) + old(self).energy_score,
            // discovery only grows
            forall|i: int, j: int|
                old(self).discovered.in_bounds(i, j) && old(self).discovered.at(i, j)
                    ==> final(self).discovered.at(i, j),
            // a throttled tick changes nothing but the wait counter
            old(robot).move_counter + old(robot).speed < MOVE_THRESHOLD ==> ({
                &&& *final(self) == *old(self)
                &&& final(robot).move_counter == old(robot).move_counter + old(robot).speed
                &&& final(robot).x == old(robot).x
                &&& final(robot).y == old(robot).y
                &&& final(robot).role == old(robot).role
                &&& final(robot).resource_coords == old(robot).resource_coords
                &&& final(robot).carrying == old(robot).carrying
                &&& final(robot).speed == old(robot).speed
            }),
            // roles switch only at the base: an explorer reporting a find
            // deploys as extractor, a delivering extractor reverts
            final(robot).role != old(robot).role ==> ({
                &&& (final(robot).x, final(robot).y) == old(self).base_position
                &&& (old(robot).role == Role::Explorer ==> (old(robot).resource_coords is Some
                    && final(robot).role == Role::Extractor))
                &&& (old(robot).role == Role::Extractor ==> (old(robot).carrying is Some
                    && final(robot).role == Role::Explorer && final(robot).carrying is None
                    && final(robot).resource_coords is None && final(robot).speed == 1))
            }),
            // scores never decrease, and rise only when this robot delivers
            final(self).crystal_score == old(self).crystal_score || (final(self).crystal_score
                == old(self).crystal_score + 1 && old(robot).carrying == Some(Cell::Crystal)
                && final(robot).carrying is None && (final(robot).x, final(robot).y) == old(
                self,
            ).base_position),
            final(self).energy_score == old(self).energy_score || (final(self).energy_score == old(
                self,
            ).energy_score + 1 && old(robot).carrying == Some(Cell::Energy)
                && final(robot).carrying is None && (final(robot).x, final(robot).y) == old(
                self,
            ).base_position),
            // an acting tick resets the wait counter
            old(robot).move_counter + old(robot).speed >= MOVE_THRESHOLD
                ==> final(robot).move_counter == 0,
            // a wandering explorer reveals the clamped 3x3 around its final
            // position and claims the first resource found there, in
            // row-major scan order
            (old(robot).move_counter + old(robot).speed >= MOVE_THRESHOLD && old(robot).role
                == Role::Explorer && old(robot).resource_coords is None) ==> ({
                let fx = final(robot).x as int;
                let fy = final(robot).y as int;
                &&& final(robot).role == Role::Explorer
                &&& final(robot).carrying is None
                &&& final(robot).speed == old(robot).speed
                &&& final(self).crystal_score == old(self).crystal_score
                &&& final(self).energy_score == old(self).energy_score
                &&& forall|i: int, j: int|
                    old(self).discovered.in_bounds(i, j) && fx - 1 <= i <= fx + 1 && fy - 1 <= j
                        <= fy + 1 ==> final(self).discovered.at(i, j)
                &&& (final(robot).resource_coords is None ==> (final(self).map == old(self).map
                    && forall|i: int, j: int|
                        old(self).map.in_bounds(i, j) && fx - 1 <= i <= fx + 1 && fy - 1 <= j <= fy
                            + 1 ==> !is_resource(old(self).map.cell(i, j))))
                &&& (match final(robot).resource_coords {
                    Some(c) => {
                        &&& old(self).map.in_bounds(c.0 as int, c.1 as int)
                        &&& fx - 1 <= c.0 <= fx + 1
                        &&& fy - 1 <= c.1 <= fy + 1
                        &&& is_resource(old(self).map.cell(c.0 as int, c.1 as int))
                        &&& final(self).map.cell(c.0 as int, c.1 as int) == reserved_of(
                            old(self).map.cell(c.0 as int, c.1 as int),
                        )
                        &&& forall|i: int, j: int|
                            old(self).map.in_bounds(i, j) && fx - 1 <= i <= fx + 1 && fy - 1 <= j
                                <= fy + 1 && (j < c.1 || (j == c.1 && i < c.0)) ==> !is_resource(
                                old(self).map.cell(i, j),
                            )
                    },
                    None => true,
                })
            }),
            // an explorer with a claim heads home and deploys as an
            // extractor exactly on reaching the base
            (old(robot).move_counter + old(robot).speed >= MOVE_THRESHOLD && old(robot).role
                == Role::Explorer && old(robot).resource_coords is Some) ==> ({
                &&& final(self).map == old(self).map
                &&& final(self).discovered == old(self).discovered
                &&& final(self).crystal_score == old(self).crystal_score
                &&& final(self).energy_score == old(self).energy_score
                &&& final(robot).resource_coords == old(robot).resource_coords
                &&& final(robot).carrying is None
                &&& final(robot).speed == old(robot).speed
                &&& final(robot).role == (if (final(robot).x, final(robot).y) == old(
                    self,
                ).base_position {
                    Role::Extractor
                } else {
                    Role::Explorer
                })
            }),
            // an extractor standing on its reserved cell picks up: carrying
            // set to the matching kind, the cell cleared, the return trip
            // sped up
            (old(robot).move_counter + old(robot).speed >= MOVE_THRESHOLD && old(robot).role
                == Role::Extractor && old(robot).carrying is None) ==> ({
                let rc = old(robot).resource_coords->Some_0;
                &&& final(robot).resource_coords == old(robot).resource_coords
                &&& final(robot).role == Role::Extractor
                &&& final(self).crystal_score == old(self).crystal_score
                &&& final(self).energy_score == old(self).energy_score
                &&& final(self).discovered == old(self).discovered
                &&& (if (final(robot).x, final(robot).y) == rc {
                    &&& final(robot).carrying == Some(
                        if old(self).map.cell(rc.0 as int, rc.1 as int) == Cell::ReservedCrystal {
                            Cell::Crystal
                        } else {
                            Cell::Energy
                        },
                    )
                    &&& final(self).map.cell(rc.0 as int, rc.1 as int) == Cell::Empty
                    &&& final(robot).speed == 4
                } else {
                    &&& final(robot).carrying is None
                    &&& final(self).map == old(self).map
                    &&& final(robot).speed == old(robot).speed
                })
            }),
            // an extractor carrying its load delivers exactly on reaching
            // the base
            (old(robot).move_counter + old(robot).speed >= MOVE_THRESHOLD && old(robot).role
                == Role::Extractor && old(robot).carrying is Some) ==> ({
                &&& final(self).map == old(self).map
                &&& final(self).discovered == old(self).discovered
                &&& (if (final(robot).x, final(robot).y) == old(self).base_position {
                    &&& final(robot).role == Role::Explorer
                    &&& final(robot).carrying is None
                    &&& final(robot).resource_coords is None
                    &&& final(robot).speed == 1
                    &&& final(self).crystal_score == old(self).crystal_score + (
                    if old(robot).carrying == Some(Cell::Crystal) {
                        1int
                    } else {
                        0int
                    })
                    &&& final(self).energy_score == old(self).energy_score + (
                    if old(robot).carrying == Some(Cell::Energy) {
                        1int
                    } else {
                        0int
                    })
                } else {
                    &&& final(robot).role == old(robot).role
                    &&& final(robot).carrying == old(robot).carrying
                    &&& final(robot).resource_coords == old(robot).resource_coords
                    &&& final(robot).speed == old(robot).speed
                    &&& final(self).crystal_score == old(self).crystal_score
                    &&& final(self).energy_score == old(self).energy_score
                })
            }),
    {
        if robot.move_counter + robot.speed < MOVE_THRESHOLD {
            // not this robot's tick: accumulate and wait
            robot.move_counter = robot.move_counter + robot.speed;
            return ;
        }
        robot.move_counter = 0;
        match robot.role {
            Role::Explorer => {
                if robot.resource_coords.is_some() {
                    // head home to report the find; the way home is always known
                    let np = self.move_robot_towards_target(
                        robot.x,
                        robot.y,
                        self.base_position.0,
                        self.base_position.1,
                        false,
                    );
                    robot.x = np.0;
                    robot.y = np.1;
                    if robot.x == self.base_position.0 && robot.y == self.base_position.1 {
                        // deploy as an extractor toward the claimed resource
                        robot.role = Role::Extractor;
                    }
                } else {
                    // wander, reveal the neighborhood, and claim the first
                    // resource seen nearby
                    let np = Self::move_robot_randomly(&mut self.rng, &self.map, robot.x, robot.y);
                    robot.x = np.0;
                    robot.y = np.1;
                    self.discovered.mark_seen(robot.x, robot.y, 1);
                    match scan_resource(&self.map, robot.x, robot.y) {
                        Some(p) => {
                            let c = self.map.get(p.0, p.1);
                            robot.resource_coords = Some(p);
                            let reserved = if c == Cell::Crystal {
                                Cell::ReservedCrystal
                            } else {
                                Cell::ReservedEnergy
                            };
                            proof {
                                crate::grid::lemma_flat_index_in_range(
                                    p.0 as int,
                                    p.1 as int,
                                    self.map.width as int,
                                    self.map.height as int,
                                );
                                lemma_kind_count_update(
                                    self.map.cells@,
                                    Cell::Crystal,
                                    p.1 as int * self.map.width as int + p.0 as int,
                                    reserved,
                                );
                                lemma_kind_count_update(
                                    self.map.cells@,
                                    Cell::Energy,
                                    p.1 as int * self.map.width as int + p.0 as int,
                                    reserved,
                                );
                            }
                            self.map.set(p.0, p.1, reserved);
                        },
                        None => {},
                    }
                }
            },
            Role::Extractor => {
                if let Some(rc) = robot.resource_coords {
                    if robot.carrying.is_none() {
                        // fetch the claimed resource, staying inside
                        // discovered territory
                        let np = self.move_robot_towards_target(robot.x, robot.y, rc.0, rc.1, true);
                        robot.x = np.0;
                        robot.y = np.1;
                        if robot.x == rc.0 && robot.y == rc.1 {
                            let c = self.map.get(rc.0, rc.1);
                            if matches!(c, Cell::ReservedCrystal | Cell::ReservedEnergy) {
                                // the return trip runs at the higher rate
                                robot.speed = Robot::increased_speed();
                                robot.carrying = Some(
                                    if c == Cell::ReservedCrystal {
                                        Cell::Crystal
                                    } else {
                                        Cell::Energy
                                    },
                                );
                                proof {
                                    crate::grid::lemma_flat_index_in_range(
                                        rc.0 as int,
                                        rc.1 as int,
                                        self.map.width as int,
                                        self.map.height as int,
                                    );
                                    lemma_kind_count_update(
                                        self.map.cells@,
                                        Cell::Crystal,
                                        rc.1 as int * self.map.width as int + rc.0 as int,
                                        Cell::Empty,
                                    );
                                    lemma_kind_count_update(
                                        self.map.cells@,
                                        Cell::Energy,
                                        rc.1 as int * self.map.width as int + rc.0 as int,
                                        Cell::Empty,
                                    );
                                }
                                self.map.set(rc.0, rc.1, Cell::Empty);
                            }
                        }
                    } else {
                        // ferry the resource home
                        let np = self.move_robot_towards_target(
                            robot.x,
                            robot.y,
                            self.base_position.0,
                            self.base_position.1,
                            true,
                        );
                        robot.x = np.0;
                        robot.y = np.1;
                        if robot.x == self.base_position.0 && robot.y == self.base_position.1 {
                            proof {
                                crate::grid::lemma_kind_count_bounds(
                                    self.map.cells@,
                                    Cell::Crystal,
                                );
                                crate::grid::lemma_kind_count_bounds(self.map.cells@, Cell::Energy);
                            }
                            match robot.carrying {
                                Some(Cell::Crystal) => {
                                    self.crystal_score = self.crystal_score + 1;
                                },
                                Some(Cell::Energy) => {
                                    self.energy_score = self.energy_score + 1;
                                },
                                _ => {},
                            }
                            // back to exploring at the base rate
                            robot.role = Role::Explorer;
                            robot.speed = Robot::default_speed();
                            robot.carrying = None;
                            robot.resource_coords = None;
                        }
                    }
                }
            },
        }
    }
}

/// What a hand-assembled simulation state must satisfy to be accepted by
/// `GameState::from_parts`.
pub open spec fn parts_valid(g: Grid, base: (usize, usize), robots: Seq<Robot>) -> bool {
    &&& g.wf()
    &&& robots.len() <= 4096
    &&& g.in_bounds(base.0 as int, base.1 as int)
    &&& g.cell(base.0 as int, base.1 as int) == Cell::Base
    &&& forall|k: int| 0 <= k < robots.len() ==> robot_ok(#[trigger] robots[k], g)
    &&& crate::robot::distinct_claims(robots)
}

/// Whether one robot satisfies the per-robot invariant on this grid.
fn robot_check(r: &Robot, map: &Grid) -> (b: bool)
    requires
        map.wf(),
    ensures
        b == robot_ok(*r, *map),
{
    if !(r.x < map.width && r.y < map.height) {
        return false;
    }
    if !(1 <= r.speed && r.speed <= 4 && r.move_counter < 4) {
        return false;
    }
    if r.role == Role::Extractor && r.resource_coords.is_none() {
        return false;
    }
    match r.carrying {
        Some(c) => {
            if r.resource_coords.is_none() {
                return false;
            }
            if r.role != Role::Extractor {
                return false;
            }
            if !matches!(c, Cell::Energy | Cell::Crystal) {
                return false;
            }
        },
        None => {},
    }
    match r.resource_coords {
        Some(rc) => {
            if !(rc.0 < map.width && rc.1 < map.height) {
                return false;
            }
            let cell = map.get(rc.0, rc.1);
            if r.carrying.is_some() {
                if cell != Cell::Empty {
                    return false;
                }
            } else {
                if !matches!(cell, Cell::ReservedEnergy | Cell::ReservedCrystal) {
                    return false;
                }
            }
        },
        None => {},
    }
    true
}

impl GameState {
    /// Assembles a simulation from explicit parts — a cell array, a base,
    /// a robot list and a seed for the exploration draws — after checking
    /// every invariant the simulation relies on: a well-sized grid, the
    /// Base cell in place, each robot on the grid with a consistent claim,
    /// and no two robots claiming the same cell. Scores start at zero and
    /// everything starts undiscovered. Returns `None` exactly when a
    /// check fails.
    pub fn from_parts(
        cells: Vec<Cell>,
        width: usize,
        height: usize,
        base: (usize, usize),
        robots: Vec<Robot>,
        seed: u64,
    ) -> (r: Option<GameState>)
        ensures
            r is Some <==> parts_valid((Grid { cells, width, height }), base, robots@),
            match r {
                Some(s) => {
                    &&& s.wf()
                    &&& s.map == (Grid { cells, width, height })
                    &&& s.base_position == base
                    &&& s.robots@ == robots@
                    &&& s.crystal_score == 0
                    &&& s.energy_score == 0
                    &&& !s.game_over
                    &&& forall|i: int, j: int|
                        s.discovered.in_bounds(i, j) ==> !(#[trigger] s.discovered.at(i, j))
                },
                None => true,
            },
    {
        if width < 1 || width > 4096 || height < 1 || height > 4096 {
            return None;
        }
        proof {
            crate::grid::lemma_area_bound(width as int, height as int);
        }
        let size: usize = width * height;
        if cells.len() != size {
            return None;
        }
        if robots.len() > 4096 {
            return None;
        }
        if !(base.0 < width && base.1 < height) {
            return None;
        }
        let map = Grid { cells, width, height };
        if !matches!(map.get(base.0, base.1), Cell::Base) {
            return None;
        }
        let mut k: usize = 0;
        while k < robots.len()
            invariant
                map.wf(),
                map == (Grid { cells, width, height }),
                k <= robots@.len(),
                forall|m: int| 0 <= m < k ==> robot_ok(#[trigger] robots@[m], map),
            decreases robots@.len() - k,
        {
            if !robot_check(&robots[k], &map) {
                return None;
            }
            k = k + 1;
        }
        let mut a: usize = 0;
        while a < robots.len()
            invariant
                a <= robots@.len(),
                forall|m: int, n: int|
                    0 <= m < n < robots@.len() && m < a && robots@[m].resource_coords is Some
                        && robots@[n].resource_coords is Some ==> robots@[m].resource_coords
                        != robots@[n].resource_coords,
            decreases robots@.len() - a,
        {
            let mut b: usize = a + 1;
            while b < robots.len()
                invariant
                    a < robots@.len(),
                    a + 1 <= b <= robots@.len(),
                    forall|m: int, n: int|
                        0 <= m < n < robots@.len() && m < a && robots@[m].resource_coords is Some
                            && robots@[n].resource_coords is Some ==> robots@[m].resource_coords
                            != robots@[n].resource_coords,
                    forall|n: int|
                        a < n < b && robots@[a as int].resource_coords is Some && robots@[
                            n
                        ].resource_coords is Some ==> robots@[a as int].resource_coords != robots@[
                            n
                        ].resource_coords,
                decreases robots@.len() - b,
            {
                if let Some(p) = robots[a].resource_coords {
                    if let Some(q) = robots[b].resource_coords {
                        if p.0 == q.0 && p.1 == q.1 {
                            proof {
                                assert(robots@[a as int].resource_coords == robots@[
                                    b as int
                                ].resource_coords);
                            }
                            return None;
                        }
                    }
                }
                b = b + 1;
            }
            a = a + 1;
        }
        let mut seen: Vec<bool> = Vec::new();
        while seen.len() < size
            invariant
                seen@.len() <= size,
                forall|m: int| 0 <= m < seen@.len() ==> !seen@[m],
            decreases size - seen@.len(),
        {
            seen.push(false);
        }
        let discovered = DiscoveryMap { seen, width, height };
        proof {
            assert forall|i: int, j: int| discovered.in_bounds(i, j) implies !discovered.at(
                i,
                j,
            ) by {
                crate::grid::lemma_flat_index_in_range(i, j, width as int, height as int);
            }
        }
        let state = GameState {
            map,
            base_position: base,
            robots,
            crystal_score: 0,
            energy_score: 0,
            game_over: false,
            discovered,
            rng: crate::rng::rng_from_seed(seed),
        };
        proof {
            crate::grid::lemma_kind_count_bounds(state.map.cells@, Cell::Energy);
            crate::grid::lemma_kind_count_bounds(state.map.cells@, Cell::Crystal);
            crate::robot::lemma_carried_count_le_len(state.robots@, Cell::Energy);
            crate::robot::lemma_carried_count_le_len(state.robots@, Cell::Crystal);
        }
        Some(state)
    }

    /// Advances the whole simulation by one tick: every robot is updated
    /// once, in list order, against the shared map, and the termination
    /// flag is recomputed. Both resource kinds are conserved, obstacles
    /// never move, no resource ever appears, and discovery only grows.
    /// After the tick, `game_over` holds exactly when no undelivered
    /// resource remains on the map. Ticks keep advancing even then — a
    /// robot still carrying its last load delivers it on the following
    /// ticks — and the host decides when to stop calling `step`.
    pub fn step(&mut self)
        requires
            old(self).wf(),
        ensures
            final(self).wf(),
            final(self).map.width == old(self).map.width,
            final(self).map.height == old(self).map.height,
            final(self).base_position == old(self).base_position,
            final(self).robots@.len() == old(self).robots@.len(),
            final(self).kind_total(Cell::Crystal) == old(self).kind_total(Cell::Crystal),
            final(self).kind_total(Cell::Energy) == old(self).kind_total(Cell::Energy),
            final(self).crystal_score >= old(self).crystal_score,
            final(self).energy_score >= old(self).energy_score,
            forall|i: int, j: int|
                old(self).map.in_bounds(i, j) && old(self).map.cell(i, j) == Cell::Obstacle
                    ==> final(self).map.cell(i, j) == Cell::Obstacle,
            forall|i: int, j: int|
                old(self).map.in_bounds(i, j) && is_resource(#[trigger] final(self).map.cell(i, j))
                    ==> final(self).map.cell(i, j) == old(self).map.cell(i, j),
            // every cell change over the whole tick is a claim or a pickup
            forall|i: int, j: int|
                old(self).map.in_bounds(i, j)
                    && final(self).map.cell(i, j) != old(self).map.cell(i, j)
                    ==> ((is_resource(old(self).map.cell(i, j))
                        && final(self).map.cell(i, j) == reserved_of(old(self).map.cell(i, j)))
                    || (is_reserved(old(self).map.cell(i, j))
                        && final(self).map.cell(i, j) == Cell::Empty)),
            forall|i: int, j: int|
                old(self).discovered.in_bounds(i, j) && old(self).discovered.at(i, j)
                    ==> final(self).discovered.at(i, j),
            final(self).game_over <==> (forall|i: int, j: int|
                final(self).map.in_bounds(i, j) ==> !is_unit(final(self).map.cell(i, j))),
    {
        let ghost init = *self;
        let mut i: usize = 0;
        while i < self.robots.len()
            invariant
                init.wf(),
                self.maps_wf(),
                self.map.width == init.map.width,
                self.map.height == init.map.height,
                self.base_position == init.base_position,
                self.map.in_bounds(self.base_position.0 as int, self.base_position.1 as int),
                self.map.cell(
                    self.base_position.0 as int,
                    self.base_position.1 as int,
                ) == Cell::Base,
                self.robots@.len() == init.robots@.len(),
                self.game_over == init.game_over,
                i <= self.robots@.len(),
                forall|k: int|
                    0 <= k < self.robots@.len() ==> robot_ok(#[trigger] self.robots@[k], self.map),
                self.claims_distinct(),
                kind_count(self.map.cells@, Cell::Crystal) + carried_count(
                    self.robots@,
                    Cell::Crystal,
                ) + self.crystal_score == init.kind_total(Cell::Crystal),
                kind_count(self.map.cells@, Cell::Energy) + carried_count(
                    self.robots@,
                    Cell::Energy,
                ) + self.energy_score == init.kind_total(Cell::Energy),
                init.kind_total(Cell::Crystal) <= u32::MAX,
                init.kind_total(Cell::Energy) <= u32::MAX,
                self.crystal_score >= init.crystal_score,
                self.energy_score >= init.energy_score,
                forall|a: int, b: int|
                    init.map.in_bounds(a, b) && init.map.cell(a, b) == Cell::Obstacle
                        ==> self.map.cell(a, b) == Cell::Obstacle,
                forall|a: int, b: int|
                    init.map.in_bounds(a, b) && is_resource(#[trigger] self.map.cell(a, b))
                        ==> self.map.cell(a, b) == init.map.cell(a, b),
                forall|a: int, b: int|
                    init.map.in_bounds(a, b) && self.map.cell(a, b) != init.map.cell(a, b) ==> ((
                    is_resource(init.map.cell(a, b)) && self.map.cell(a, b) == reserved_of(
                        init.map.cell(a, b),
                    )) || (is_reserved(init.map.cell(a, b)) && self.map.cell(a, b)
                        == Cell::Empty)),
                // a cell claimed earlier in this tick is still claimed by a
                // robot already processed
                forall|a: int, b: int|
                    init.map.in_bounds(a, b) && self.map.cell(a, b) != init.map.cell(a, b)
                        && is_reserved(self.map.cell(a, b)) ==> (exists|k: int|
                        0 <= k < i && self.robots@[k].resource_coords == Some(
                            (a as usize, b as usize),
                        )),
                forall|a: int, b: int|
                    init.discovered.in_bounds(a, b) && init.discovered.at(a, b)
                        ==> self.discovered.at(a, b),
            decreases self.robots@.len() - i,
        {
            let ghost pre = *self;
            let mut r: Robot = self.robots[i];
            proof {
                lemma_carried_count_bound(self.robots@, Cell::Crystal, i as int);
                lemma_carried_count_bound(self.robots@, Cell::Energy, i as int);
            }
            self.update_robot(&mut r);
            proof {
                lemma_carried_count_update(pre.robots@, Cell::Crystal, i as int, r);
                lemma_carried_count_update(pre.robots@, Cell::Energy, i as int, r);
            }
            self.robots.set(i, r);
            proof {
                let m0 = pre.map;
                let m1 = self.map;
                let r0 = pre.robots@[i as int];
                // the other robots' claims survive this robot's update
                assert forall|k: int|
                    0 <= k < self.robots@.len() implies robot_ok(
                    #[trigger] self.robots@[k],
                    self.map,
                ) by {
                    if k != i as int {
                        let rk = pre.robots@[k];
                        assert(self.robots@[k] == rk);
                        assert(robot_ok(rk, m0));
                        if rk.resource_coords is Some {
                            let d = rk.resource_coords->Some_0;
                            if m1.cell(d.0 as int, d.1 as int) != m0.cell(d.0 as int, d.1 as int) {
                                // only a claim or this robot's own pickup changes a
                                // cell, and neither can touch another robot's claim
                                assert(r0.resource_coords is Some && rk.resource_coords is Some);
                                assert(false);
                            }
                        }
                    }
                }
                // no two claims collide after the update either
                assert forall|k: int, l: int|
                    0 <= k < l < self.robots@.len() && self.robots@[k].resource_coords is Some
                        && self.robots@[l].resource_coords is Some implies self.robots@[
                    k
                ].resource_coords != self.robots@[l].resource_coords by {
                    if k == i as int || l == i as int {
                        let o = if k == i as int {
                            l
                        } else {
                            k
                        };
                        let ro = pre.robots@[o];
                        assert(self.robots@[o] == ro);
                        assert(robot_ok(ro, m0));
                        if r.resource_coords == ro.resource_coords {
                            if r.resource_coords == r0.resource_coords {
                                assert(pre.claims_distinct());
                                assert(false);
                            } else {
                                // a fresh claim targets a raw resource cell, but the
                                // other robot's claim cell is reserved or empty
                                let p = r.resource_coords->Some_0;
                                assert(is_resource(m0.cell(p.0 as int, p.1 as int)));
                                assert(false);
                            }
                        }
                    }
                }
                assert forall|a: int, b: int|
                    init.discovered.in_bounds(a, b) && init.discovered.at(a, b)
                        implies self.discovered.at(a, b) by {
                    assert(pre.discovered.in_bounds(a, b));
                    assert(pre.discovered.at(a, b));
                }
                // the per-tick cell ladder: a cell claimed earlier this tick
                // cannot be picked up in the same tick, because its claimant
                // was processed already and still holds the claim
                assert forall|a: int, b: int|
                    init.map.in_bounds(a, b) && self.map.cell(a, b) != init.map.cell(
                        a,
                        b,
                    ) implies ((is_resource(init.map.cell(a, b)) && self.map.cell(a, b)
                    == reserved_of(init.map.cell(a, b))) || (is_reserved(init.map.cell(a, b))
                    && self.map.cell(a, b) == Cell::Empty)) by {
                    if self.map.cell(a, b) != pre.map.cell(a, b) {
                        if is_reserved(pre.map.cell(a, b)) && pre.map.cell(a, b) != init.map.cell(
                            a,
                            b,
                        ) {
                            let k = choose|k: int|
                                0 <= k < i && pre.robots@[k].resource_coords == Some(
                                    (a as usize, b as usize),
                                );
                            assert(pre.robots@[i as int].resource_coords == Some(
                                (a as usize, b as usize),
                            ));
                            assert(pre.claims_distinct());
                            assert(false);
                        }
                    }
                }
                assert forall|a: int, b: int|
                    init.map.in_bounds(a, b) && self.map.cell(a, b) != init.map.cell(a, b)
                        && is_reserved(self.map.cell(a, b)) implies (exists|k: int|
                    0 <= k < i + 1 && self.robots@[k].resource_coords == Some(
                        (a as usize, b as usize),
                    )) by {
                    if self.map.cell(a, b) != pre.map.cell(a, b) {
                        // a fresh claim by the robot just processed
                        assert(self.robots@[i as int] == r);
                        assert(0 <= i && self.robots@[i as int].resource_coords == Some(
                            (a as usize, b as usize),
                        ));
                    } else {
                        let k = choose|k: int|
                            0 <= k < i && pre.robots@[k].resource_coords == Some(
                                (a as usize, b as usize),
                            );
                        assert(self.robots@[k] == pre.robots@[k]);
                        assert(0 <= k < i + 1 && self.robots@[k].resource_coords == Some(
                            (a as usize, b as usize),
                        ));
                    }
                }
            }
            i = i + 1;
        }
        let over = self.check_game_over();
        self.game_over = over;
    }
}

} // verus!
