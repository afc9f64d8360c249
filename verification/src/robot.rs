//! Robots and their per-robot invariants.

use vstd::prelude::*;
use crate::{Cell, Role, is_reserved, is_resource};
use crate::grid::Grid;

verus! {

/// A robot acts only on ticks where its accumulated counter reaches this
/// threshold, so a robot of speed `s` acts every `4 / s` ticks or so.
pub const MOVE_THRESHOLD: usize = 4;

/// One robot: a position, a role, an optional claimed resource, an optional
/// carried resource, and the speed bookkeeping that throttles movement.
#[derive(Clone, Copy, Debug)]
pub struct Robot {
    pub x: usize,
    pub y: usize,
    pub role: Role,
    pub resource_coords: Option<(usize, usize)>,
    pub carrying: Option<Cell>,
    pub speed: usize,
    pub move_counter: usize,
}

impl Robot {
    /// The speed of a freshly deployed robot: it acts every fourth tick.
    pub fn default_speed() -> (r: usize)
        ensures
            r == 1,
    {
        1
    }

    /// The speed of an extractor that has picked up its resource: the
    /// return trip runs at four times the base rate, one act per tick.
    pub fn increased_speed() -> (r: usize)
        ensures
            r == 4,
    {
        4
    }
}

/// What a single robot carries toward the count of resource `kind`.
pub open spec fn carry_contrib(r: Robot, kind: Cell) -> int {
    if r.carrying == Some(kind) {
        1int
    } else {
        0int
    }
}

/// Total resources of `kind` carried by a list of robots.
pub open spec fn carried_count(rs: Seq<Robot>, kind: Cell) -> int
    decreases rs.len(),
{
    if rs.len() == 0 {
        0
    } else {
        carried_count(rs.drop_last(), kind) + carry_contrib(rs.last(), kind)
    }
}

/// The per-robot invariant, relative to the grid it lives on.
pub open spec fn robot_ok(r: Robot, g: Grid) -> bool {
    &&& (r.x as int) < g.width
    &&& (r.y as int) < g.height
    &&& 1 <= r.speed <= MOVE_THRESHOLD
    &&& r.move_counter < MOVE_THRESHOLD
    &&& (r.carrying is Some ==> r.resource_coords is Some)
    &&& (r.carrying is Some ==> r.role == Role::Extractor)
    &&& (r.role == Role::Extractor ==> r.resource_coords is Some)
    &&& (match r.carrying {
        Some(c) => is_resource(c),
        None => true,
    })
    &&& (match r.resource_coords {
        Some(rc) => {
            &&& g.in_bounds(rc.0 as int, rc.1 as int)
            &&& (r.carrying is Some ==> g.cell(rc.0 as int, rc.1 as int) == Cell::Empty)
            &&& (r.carrying is None ==> is_reserved(g.cell(rc.0 as int, rc.1 as int)))
        },
        None => true,
    })
}

/// The claimed resource coordinates of the robots are pairwise distinct.
pub open spec fn distinct_claims(rs: Seq<Robot>) -> bool {
    forall|i: int, j: int|
        0 <= i < j < rs.len() && rs[i].resource_coords is Some && rs[j].resource_coords is Some
            ==> rs[i].resource_coords != rs[j].resource_coords
}

/// A list of robots carries at most one unit each.
pub proof fn lemma_carried_count_le_len(rs: Seq<Robot>, kind: Cell)
    ensures
        0 <= carried_count(rs, kind) <= rs.len(),
    decreases rs.len(),
{
    if rs.len() > 0 {
        lemma_carried_count_le_len(rs.drop_last(), kind);
    }
}

/// How one robot changes the carried count when it is replaced in a list.
pub proof fn lemma_carried_count_update(rs: Seq<Robot>, kind: Cell, i: int, r: Robot)
    requires
        0 <= i < rs.len(),
    ensures
        carried_count(rs.update(i, r), kind) == carried_count(rs, kind) - carry_contrib(rs[i], kind)
            + carry_contrib(r, kind),
    decreases rs.len(),
{
    let u = rs.update(i, r);
    if i == rs.len() - 1 {
        assert(u.drop_last() =~= rs.drop_last());
    } else {
        assert(u.drop_last() =~= rs.drop_last().update(i, r));
        lemma_carried_count_update(rs.drop_last(), kind, i, r);
    }
}

/// A single robot's contribution never exceeds the list's carried count.
pub proof fn lemma_carried_count_bound(rs: Seq<Robot>, kind: Cell, i: int)
    requires
        0 <= i < rs.len(),
    ensures
        carry_contrib(rs[i], kind) <= carried_count(rs, kind),
        0 <= carried_count(rs, kind),
    decreases rs.len(),
{
    if rs.len() > 0 {
        if i == rs.len() - 1 {
            lemma_carried_count_nonneg(rs.drop_last(), kind);
        } else {
            lemma_carried_count_bound(rs.drop_last(), kind, i);
            assert(rs.drop_last()[i] == rs[i]);
        }
    }
}

pub proof fn lemma_carried_count_nonneg(rs: Seq<Robot>, kind: Cell)
    ensures
        0 <= carried_count(rs, kind),
    decreases rs.len(),
{
    if rs.len() > 0 {
        lemma_carried_count_nonneg(rs.drop_last(), kind);
    }
}

/// A list of robots none of which carries anything carries nothing.
pub proof fn lemma_carried_count_zero(rs: Seq<Robot>, kind: Cell)
    requires
        forall|i: int| 0 <= i < rs.len() ==> rs[i].carrying is None,
    ensures
        carried_count(rs, kind) == 0,
    decreases rs.len(),
{
    if rs.len() > 0 {
        assert(forall|i: int|
            0 <= i < rs.len() - 1 ==> rs.drop_last()[i] == rs[i]);
        lemma_carried_count_zero(rs.drop_last(), kind);
    }
}

} // verus!
