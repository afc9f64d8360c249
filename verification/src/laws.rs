//! The library-wide guarantees that relate several components, stated as
//! public proof functions. Resource conservation itself is part of the
//! contract of `GameState::step`.

use vstd::prelude::*;
use crate::{Cell, counts_as, is_unit};
use crate::grid::{kind_count, lemma_kind_count_zero};
use crate::robot::{carried_count, lemma_carried_count_zero};
use crate::state::GameState;

verus! {

/// Splitting a flat cell index back into coordinates.
proof fn lemma_flat_to_coords(k: int, w: int, h: int)
    by (nonlinear_arith)
    requires
        1 <= w,
        1 <= h,
        0 <= k < w * h,
    ensures
        0 <= k % w < w,
        0 <= k / w < h,
        (k / w) * w + (k % w) == k,
{
}

/// No double claim: in a well-formed state, the claimed resource
/// coordinates of two distinct robots never coincide, so at most one
/// robot's assignment equals any given Reserved cell's coordinate.
pub proof fn lemma_no_double_claim(s: GameState, i: int, j: int)
    requires
        s.wf(),
        0 <= i < s.robots@.len(),
        0 <= j < s.robots@.len(),
        i != j,
        s.robots@[i].resource_coords is Some,
        s.robots@[j].resource_coords is Some,
    ensures
        s.robots@[i].resource_coords != s.robots@[j].resource_coords,
{
}

/// When no undelivered resource remains on the map, every resource unit
/// of the conserved totals sits either in a robot's hands or in the
/// scores. Together with the conservation clause of `GameState::step`,
/// this accounts for all resources placed at generation time.
pub proof fn lemma_game_over_accounting(s: GameState)
    requires
        s.wf(),
        forall|i: int, j: int| s.map.in_bounds(i, j) ==> !is_unit(#[trigger] s.map.cell(i, j)),
    ensures
        s.kind_total(Cell::Crystal) == carried_count(s.robots@, Cell::Crystal)
            + s.crystal_score,
        s.kind_total(Cell::Energy) == carried_count(s.robots@, Cell::Energy) + s.energy_score,
{
    let cells = s.map.cells@;
    let w = s.map.width as int;
    let h = s.map.height as int;
    assert forall|k: int| 0 <= k < cells.len() implies !counts_as(#[trigger] cells[k], Cell::Energy)
        && !counts_as(cells[k], Cell::Crystal) by {
        lemma_flat_to_coords(k, w, h);
        let i = k % w;
        let j = k / w;
        assert(s.map.in_bounds(i, j));
        assert(s.map.cell(i, j) == cells[k]);
        assert(!is_unit(cells[k]));
    }
    lemma_kind_count_zero(cells, Cell::Energy);
    lemma_kind_count_zero(cells, Cell::Crystal);
}

/// When the run is over and every robot has also dropped off its load,
/// the scores alone hold the conserved totals: every resource placed at
/// generation time has been delivered.
pub proof fn lemma_all_delivered(s: GameState)
    requires
        s.wf(),
        forall|i: int, j: int| s.map.in_bounds(i, j) ==> !is_unit(#[trigger] s.map.cell(i, j)),
        forall|k: int| 0 <= k < s.robots@.len() ==> (#[trigger] s.robots@[k]).carrying is None,
    ensures
        s.kind_total(Cell::Crystal) == s.crystal_score,
        s.kind_total(Cell::Energy) == s.energy_score,
{
    lemma_game_over_accounting(s);
    lemma_carried_count_zero(s.robots@, Cell::Crystal);
    lemma_carried_count_zero(s.robots@, Cell::Energy);
}

} // verus!
