//! A turn-based simulation of autonomous resource-gathering robots on a
//! procedurally generated toroidal grid.
//!
//! Robots explore the grid under fog of war, discover Energy and Crystal
//! resources, reserve them so that no two robots converge on the same cell,
//! and ferry them back to a fixed base, switching between the Explorer and
//! Extractor roles as they do so.

use vstd::prelude::*;

pub mod grid;
pub mod rng;
pub mod robot;
pub mod state;
pub mod pathfind;
pub mod gen;
pub mod laws;

verus! {

/// One cell of the map. The Reserved variants mark a resource that some
/// robot has claimed as its assignment, so that no second robot targets it.
#[derive(Clone, Copy, Debug, PartialEq, Eq, Structural)]
pub enum Cell {
    Empty,
    Obstacle,
    Energy,
    Crystal,
    Base,
    ReservedEnergy,
    ReservedCrystal,
}

/// The behaviour mode of a robot.
#[derive(Clone, Copy, Debug, PartialEq, Eq, Structural)]
pub enum Role {
    Explorer,
    Extractor,
}

/// A raw, unclaimed resource cell.
pub open spec fn is_resource(c: Cell) -> bool {
    c == Cell::Energy || c == Cell::Crystal
}

/// A resource cell already claimed by some robot.
pub open spec fn is_reserved(c: Cell) -> bool {
    c == Cell::ReservedEnergy || c == Cell::ReservedCrystal
}

/// A cell that still counts as an undelivered resource (raw or claimed).
pub open spec fn is_unit(c: Cell) -> bool {
    is_resource(c) || is_reserved(c)
}

/// The claimed form of a raw resource cell.
pub open spec fn reserved_of(c: Cell) -> Cell {
    if c == Cell::Energy {
        Cell::ReservedEnergy
    } else {
        Cell::ReservedCrystal
    }
}

/// Whether a cell counts as one unit of the resource `kind`
/// (`kind` is `Cell::Energy` or `Cell::Crystal`), in raw or claimed form.
pub open spec fn counts_as(c: Cell, kind: Cell) -> bool {
    c == kind || (is_resource(kind) && c == reserved_of(kind))
}

} // verus!
