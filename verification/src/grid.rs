//! The toroidal map: a fixed-size rectangular array of cells stored row by
//! row, together with the counting functions used to state that resources
//! are conserved.

use vstd::prelude::*;
use crate::{Cell, counts_as, is_unit, is_reserved};

verus! {

/// Largest accepted side length; keeps all coordinate arithmetic
/// comfortably inside `usize` and the cell count inside `u32`.
pub const MAX_SIDE: usize = 4096;

/// A fixed-size rectangular array of cells, addressed as `(x, y)` with
/// `0 <= x < width` and `0 <= y < height`, stored row by row.
pub struct Grid {
    pub cells: Vec<Cell>,
    pub width: usize,
    pub height: usize,
}

/// Number of cells counting as one unit of `kind` (raw or claimed).
pub open spec fn kind_count(cells: Seq<Cell>, kind: Cell) -> int
    decreases cells.len(),
{
    if cells.len() == 0 {
        0
    } else {
        kind_count(cells.drop_last(), kind) + if counts_as(cells.last(), kind) {
            1int
        } else {
            0int
        }
    }
}

impl Grid {
    pub open spec fn wf(self) -> bool {
        &&& 1 <= self.width <= MAX_SIDE
        &&& 1 <= self.height <= MAX_SIDE
        &&& self.cells@.len() == self.width * self.height
    }

    pub open spec fn in_bounds(self, x: int, y: int) -> bool {
        0 <= x < self.width && 0 <= y < self.height
    }

    /// The cell at `(x, y)`.
    pub open spec fn cell(self, x: int, y: int) -> Cell {
        self.cells@[y * self.width + x]
    }

    pub fn get(&self, x: usize, y: usize) -> (c: Cell)
        requires
            self.wf(),
            self.in_bounds(x as int, y as int),
        ensures
            c == self.cell(x as int, y as int),
    {
        proof {
            lemma_flat_index_in_range(x as int, y as int, self.width as int, self.height as int);
        }
        self.cells[y * self.width + x]
    }

    pub fn set(&mut self, x: usize, y: usize, c: Cell)
        requires
            old(self).wf(),
            old(self).in_bounds(x as int, y as int),
        ensures
            final(self).wf(),
            final(self).width == old(self).width,
            final(self).height == old(self).height,
            final(self).cells@ == old(self).cells@.update(
                y as int * old(self).width as int + x as int,
                c,
            ),
            final(self).cell(x as int, y as int) == c,
            forall|i: int, j: int|
                old(self).in_bounds(i, j) && (i != x || j != y) ==> final(self).cell(i, j)
                    == old(self).cell(i, j),
    {
        proof {
            lemma_flat_index_in_range(x as int, y as int, self.width as int, self.height as int);
        }
        let idx: usize = y * self.width + x;
        self.cells.set(idx, c);
        proof {
            assert forall|i: int, j: int|
                old(self).in_bounds(i, j) && (i != x || j != y) implies self.cell(i, j) == old(
                self,
            ).cell(i, j) by {
                lemma_flat_index_in_range(i, j, old(self).width as int, old(self).height as int);
                lemma_flat_index_injective(
                    i,
                    j,
                    x as int,
                    y as int,
                    old(self).width as int,
                    old(self).height as int,
                );
            }
        }
    }
}

/// A rectangular working array, used by the pathfinder for its per-cell
/// bookkeeping (tentative costs, predecessors, the closed set).
pub struct Table<T> {
    pub cells: Vec<T>,
    pub width: usize,
    pub height: usize,
}

impl<T: Copy> Table<T> {
    pub open spec fn wf(self) -> bool {
        &&& 1 <= self.width <= MAX_SIDE
        &&& 1 <= self.height <= MAX_SIDE
        &&& self.cells@.len() == self.width * self.height
    }

    pub open spec fn in_bounds(self, x: int, y: int) -> bool {
        0 <= x < self.width && 0 <= y < self.height
    }

    pub open spec fn at(self, x: int, y: int) -> T {
        self.cells@[y * self.width + x]
    }

    /// A table of the given dimensions with every entry equal to `t`.
    pub fn new_filled(width: usize, height: usize, t: T) -> (r: Table<T>)
        requires
            1 <= width <= MAX_SIDE,
            1 <= height <= MAX_SIDE,
        ensures
            r.wf(),
            r.width == width,
            r.height == height,
            forall|i: int, j: int| r.in_bounds(i, j) ==> r.at(i, j) == t,
            forall|k: int| 0 <= k < r.cells@.len() ==> r.cells@[k] == t,
    {
        proof {
            lemma_area_bound(width as int, height as int);
        }
        let size: usize = width * height;
        let mut cells: Vec<T> = Vec::new();
        while cells.len() < size
            invariant
                cells@.len() <= size,
                forall|k: int| 0 <= k < cells@.len() ==> cells@[k] == t,
            decreases size - cells@.len(),
        {
            cells.push(t);
        }
        let r = Table { cells, width, height };
        proof {
            assert forall|i: int, j: int| r.in_bounds(i, j) implies r.at(i, j) == t by {
                lemma_flat_index_in_range(i, j, width as int, height as int);
            }
        }
        r
    }

    pub fn get(&self, x: usize, y: usize) -> (t: T)
        requires
            self.wf(),
            self.in_bounds(x as int, y as int),
        ensures
            t == self.at(x as int, y as int),
    {
        proof {
            lemma_flat_index_in_range(x as int, y as int, self.width as int, self.height as int);
        }
        self.cells[y * self.width + x]
    }

    pub fn set(&mut self, x: usize, y: usize, t: T)
        requires
            old(self).wf(),
            old(self).in_bounds(x as int, y as int),
        ensures
            final(self).wf(),
            final(self).width == old(self).width,
            final(self).height == old(self).height,
            final(self).cells@ == old(self).cells@.update(
                y as int * old(self).width as int + x as int,
                t,
            ),
            final(self).at(x as int, y as int) == t,
            forall|i: int, j: int|
                old(self).in_bounds(i, j) && (i != x || j != y) ==> final(self).at(i, j) == old(
                    self,
                ).at(i, j),
    {
        proof {
            lemma_flat_index_in_range(x as int, y as int, self.width as int, self.height as int);
        }
        let idx: usize = y * self.width + x;
        self.cells.set(idx, t);
        proof {
            assert forall|i: int, j: int|
                old(self).in_bounds(i, j) && (i != x || j != y) implies self.at(i, j) == old(
                self,
            ).at(i, j) by {
                lemma_flat_index_in_range(i, j, old(self).width as int, old(self).height as int);
                lemma_flat_index_injective(
                    i,
                    j,
                    x as int,
                    y as int,
                    old(self).width as int,
                    old(self).height as int,
                );
            }
        }
    }
}

/// The cell count of a grid within the accepted side lengths fits easily
/// inside machine integers.
pub proof fn lemma_area_bound(w: int, h: int)
    by (nonlinear_arith)
    requires
        1 <= w <= 4096,
        1 <= h <= 4096,
    ensures
        w <= w * h <= 16777216,
{
}

/// A cell's flat index lies inside the backing vector.
pub proof fn lemma_flat_index_in_range(x: int, y: int, w: int, h: int)
    by (nonlinear_arith)
    requires
        0 <= x < w <= 4096,
        0 <= y < h <= 4096,
    ensures
        0 <= y * w + x < w * h,
        w * h <= 16777216,
{
}

/// Distinct in-bounds coordinates have distinct flat indices.
pub proof fn lemma_flat_index_injective(x1: int, y1: int, x2: int, y2: int, w: int, h: int)
    by (nonlinear_arith)
    requires
        0 <= x1 < w,
        0 <= y1 < h,
        0 <= x2 < w,
        0 <= y2 < h,
        x1 != x2 || y1 != y2,
    ensures
        y1 * w + x1 != y2 * w + x2,
{
}

/// How one cell changes the count of `kind` when it is overwritten.
pub proof fn lemma_kind_count_update(cells: Seq<Cell>, kind: Cell, i: int, c: Cell)
    requires
        0 <= i < cells.len(),
    ensures
        kind_count(cells.update(i, c), kind) == kind_count(cells, kind) - (if counts_as(
            cells[i],
            kind,
        ) {
            1int
        } else {
            0int
        }) + (if counts_as(c, kind) {
            1int
        } else {
            0int
        }),
    decreases cells.len(),
{
    let u = cells.update(i, c);
    if i == cells.len() - 1 {
        assert(u.drop_last() =~= cells.drop_last());
    } else {
        assert(u.drop_last() =~= cells.drop_last().update(i, c));
        lemma_kind_count_update(cells.drop_last(), kind, i, c);
    }
}

/// The count of a kind never exceeds the number of cells.
pub proof fn lemma_kind_count_bounds(cells: Seq<Cell>, kind: Cell)
    ensures
        0 <= kind_count(cells, kind) <= cells.len(),
    decreases cells.len(),
{
    if cells.len() > 0 {
        lemma_kind_count_bounds(cells.drop_last(), kind);
    }
}

/// A kind's count is zero exactly when no cell counts toward it.
pub proof fn lemma_kind_count_zero(cells: Seq<Cell>, kind: Cell)
    ensures
        kind_count(cells, kind) == 0 <==> (forall|i: int|
            0 <= i < cells.len() ==> !counts_as(cells[i], kind)),
    decreases cells.len(),
{
    if cells.len() > 0 {
        lemma_kind_count_zero(cells.drop_last(), kind);
        lemma_kind_count_bounds(cells.drop_last(), kind);
        assert(forall|i: int|
            0 <= i < cells.len() - 1 ==> cells.drop_last()[i] == cells[i]);
        if kind_count(cells, kind) == 0 {
            assert(!counts_as(cells.last(), kind));
            assert forall|i: int| 0 <= i < cells.len() implies !counts_as(cells[i], kind) by {
                if i < cells.len() - 1 {
                    assert(cells[i] == cells.drop_last()[i]);
                }
            }
        }
    }
}

/// No cell holds a resource, raw or claimed.
pub open spec fn units_free(cells: Seq<Cell>) -> bool {
    forall|k: int| 0 <= k < cells.len() ==> !is_unit(#[trigger] cells[k])
}

/// No cell holds a claimed resource.
pub open spec fn reserved_free(cells: Seq<Cell>) -> bool {
    forall|k: int| 0 <= k < cells.len() ==> !is_reserved(#[trigger] cells[k])
}

/// No cell holds the Base marker.
pub open spec fn base_free(cells: Seq<Cell>) -> bool {
    forall|k: int| 0 <= k < cells.len() ==> #[trigger] cells[k] != Cell::Base
}

/// Writing a non-Base cell keeps the map free of Base markers.
pub proof fn lemma_base_free_update(cells: Seq<Cell>, i: int, c: Cell)
    requires
        base_free(cells),
        0 <= i < cells.len(),
        c != Cell::Base,
    ensures
        base_free(cells.update(i, c)),
{
    let u = cells.update(i, c);
    assert forall|k: int| 0 <= k < u.len() implies u[k] != Cell::Base by {
        if k != i {
            assert(u[k] == cells[k]);
        }
    }
}

/// Writing a non-resource cell keeps the map free of resources.
pub proof fn lemma_units_free_update(cells: Seq<Cell>, i: int, c: Cell)
    requires
        units_free(cells),
        0 <= i < cells.len(),
        !is_unit(c),
    ensures
        units_free(cells.update(i, c)),
{
    let u = cells.update(i, c);
    assert forall|k: int| 0 <= k < u.len() implies !is_unit(u[k]) by {
        if k != i {
            assert(u[k] == cells[k]);
        }
    }
}

/// A map without resource cells counts zero of both kinds.
pub proof fn lemma_units_free_count(cells: Seq<Cell>)
    requires
        units_free(cells),
    ensures
        kind_count(cells, Cell::Energy) == 0,
        kind_count(cells, Cell::Crystal) == 0,
{
    assert forall|k: int| 0 <= k < cells.len() implies !counts_as(cells[k], Cell::Energy)
        && !counts_as(cells[k], Cell::Crystal) by {
        assert(!is_unit(cells[k]));
    }
    lemma_kind_count_zero(cells, Cell::Energy);
    lemma_kind_count_zero(cells, Cell::Crystal);
}

} // verus!
