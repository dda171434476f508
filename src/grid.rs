//! Conversion between linear cell indices and integer grid coordinates.

use vstd::prelude::*;

verus! {

/// Dimensions of a rectangular grid of cells, stored row by row.
#[derive(Clone, Copy, Debug, PartialEq, Eq, Structural)]
pub struct Grid {
    pub cols: i32,
    pub rows: i32,
}

/// Width of the grid the companion renderer draws.
pub const TEX_COLS: i32 = 1024;

/// Height of the grid the companion renderer draws.
pub const TEX_ROWS: i32 = 1024;

impl Grid {
    /// Both sides are positive and every linear index fits an `i32`.
    pub open spec fn wf(self) -> bool {
        &&& 0 < self.cols
        &&& 0 < self.rows
        &&& self.cols * self.rows <= i32::MAX
    }

    /// Number of cells.
    pub open spec fn size(self) -> nat {
        (self.cols * self.rows) as nat
    }

    /// The cell `p` lies inside the grid.
    pub open spec fn contains(self, p: (i32, i32)) -> bool {
        0 <= p.0 < self.cols && 0 <= p.1 < self.rows
    }

    /// Linear index of a cell: column plus row times width.
    pub open spec fn index_of(self, p: (i32, i32)) -> int {
        p.0 + p.1 * self.cols
    }

    /// Cell of a linear index: column is the remainder, row the quotient.
    pub open spec fn cell_of(self, idx: int) -> (i32, i32) {
        ((idx % self.cols as int) as i32, (idx / self.cols as int) as i32)
    }

    /// Number of cells, as a `usize`.
    pub fn len(&self) -> (r: usize)
        requires
            self.wf(),
        ensures
            r == self.size(),
    {
        (self.cols * self.rows) as usize
    }
}

/// Index and cell conversions are inverse to each other inside the grid.
pub proof fn lemma_cell_index_inverse(g: Grid, idx: int)
    requires
        g.wf(),
        0 <= idx < g.size(),
    ensures
        g.contains(g.cell_of(idx)),
        g.index_of(g.cell_of(idx)) == idx,
{
    let c = g.cols as int;
    assert(0 <= idx % c < c) by (nonlinear_arith) requires c > 0;
    assert(idx == c * (idx / c) + idx % c) by (nonlinear_arith) requires c > 0;
    assert(0 <= idx / c < g.rows) by (nonlinear_arith)
        requires c > 0, 0 <= idx < c * g.rows, idx == c * (idx / c) + idx % c, 0 <= idx % c < c;
    assert(c * (idx / c) == (idx / c) * c) by (nonlinear_arith);
    let p = g.cell_of(idx);
    assert(p.0 as int == idx % c && p.1 as int == idx / c);
}

/// A cell inside the grid has an index inside the grid, and maps back to itself.
pub proof fn lemma_index_cell_inverse(g: Grid, p: (i32, i32))
    requires
        g.wf(),
        g.contains(p),
    ensures
        0 <= g.index_of(p) < g.size(),
        g.cell_of(g.index_of(p)) == p,
{
    let c = g.cols as int;
    let x = p.0 as int;
    let y = p.1 as int;
    assert(0 <= x + y * c < c * g.rows) by (nonlinear_arith)
        requires 0 <= x < c, 0 <= y < g.rows;
    assert((x + y * c) % c == x && (x + y * c) / c == y) by (nonlinear_arith)
        requires 0 <= x < c, 0 <= y;
}

/// Cell coordinates `(col, row)` of a linear index: `col = idx mod cols`,
/// `row = idx div cols`.
pub fn idx_to_point(grid: Grid, idx: usize) -> (r: (i32, i32))
    requires
        grid.wf(),
        idx <= i32::MAX,
    ensures
        r == grid.cell_of(idx as int),
{
    let i = idx as i32;
    (i % grid.cols, i / grid.cols)
}

/// Linear index of a cell, or `None` when the cell lies outside the grid.
pub fn point_to_idx(grid: Grid, p: (i32, i32)) -> (r: Option<usize>)
    requires
        grid.wf(),
    ensures
        grid.contains(p) ==> r == Some(grid.index_of(p) as usize),
        !grid.contains(p) ==> r.is_none(),
{
    if p.0 < grid.cols && p.0 >= 0 && p.1 < grid.rows && p.1 >= 0 {
        proof {
            lemma_index_cell_inverse(grid, p);
        }
        Some((p.0 + p.1 * grid.cols) as usize)
    } else {
        None
    }
}

} // verus!
