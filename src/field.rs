//! Field values, neighbour lookup, the upwind update rule and seeding.

use vstd::prelude::*;
use crate::grid::{idx_to_point, point_to_idx, Grid};

verus! {

/// Bits of `+0.0`: the value of a seed cell.
pub const ZERO: u32 = 0;

/// Bits of `+inf`: the value of a cell not reached yet. It is greater than
/// the bits of every finite non-negative value.
pub const INFINITY: u32 = 0x7f80_0000;

/// The value of cell `p` in `vals`, with every cell outside the grid at `+inf`.
pub open spec fn value_at(grid: Grid, p: (i32, i32), vals: Seq<u32>) -> u32 {
    if grid.contains(p) {
        vals[grid.index_of(p)]
    } else {
        INFINITY
    }
}

pub open spec fn min_value(a: u32, b: u32) -> u32 {
    if a <= b { a } else { b }
}

pub open spec fn max_value(a: u32, b: u32) -> u32 {
    if a <= b { b } else { a }
}

/// The smaller of the two horizontal neighbours of `p`.
pub open spec fn upwind_x(grid: Grid, p: (i32, i32), vals: Seq<u32>) -> u32 {
    min_value(
        value_at(grid, ((p.0 + 1) as i32, p.1), vals),
        value_at(grid, ((p.0 - 1) as i32, p.1), vals),
    )
}

/// The smaller of the two vertical neighbours of `p`.
pub open spec fn upwind_y(grid: Grid, p: (i32, i32), vals: Seq<u32>) -> u32 {
    min_value(
        value_at(grid, (p.0, (p.1 + 1) as i32), vals),
        value_at(grid, (p.0, (p.1 - 1) as i32), vals),
    )
}

/// The pair `(a, b)` handed to the arithmetic of the update: the larger and
/// the smaller of the two upwind values.
pub open spec fn update_inputs(u_x: u32, u_y: u32) -> (u32, u32) {
    (max_value(u_x, u_y), min_value(u_x, u_y))
}

/// `c` is a value that the update rule may give cell `p`: `+inf` when no
/// upwind value is finite, otherwise a result of `kernel` on `(a, b)`.
pub open spec fn is_update<F: Fn(u32, u32) -> u32>(
    grid: Grid,
    p: (i32, i32),
    vals: Seq<u32>,
    kernel: F,
    c: u32,
) -> bool {
    let (a, b) = update_inputs(upwind_x(grid, p, vals), upwind_y(grid, p, vals));
    if b == INFINITY {
        c == INFINITY
    } else {
        call_ensures(kernel, (a, b), c)
    }
}

/// Cells outside the grid read as `+inf`, whatever the grid's size.
pub proof fn lemma_outside_is_infinite(grid: Grid, p: (i32, i32), vals: Seq<u32>)
    requires
        !grid.contains(p),
    ensures
        value_at(grid, p, vals) == INFINITY,
{
}

/// The update sees the two axes only through their larger and smaller upwind
/// value, so exchanging the horizontal and the vertical value changes nothing.
pub proof fn lemma_update_symmetric(u_x: u32, u_y: u32)
    ensures
        update_inputs(u_x, u_y) == update_inputs(u_y, u_x),
{
}

/// With a kernel that gives one result for each pair of inputs, the update
/// of a cell gives the same result when its horizontal and vertical upwind
/// values are exchanged.
pub proof fn lemma_update_symmetric_result<F: Fn(u32, u32) -> u32>(
    grid: Grid,
    p: (i32, i32),
    vals: Seq<u32>,
    swapped: Seq<u32>,
    kernel: F,
    r1: u32,
    r2: u32,
)
    requires
        forall|a: u32, b: u32, x: u32, y: u32|
            #![trigger call_ensures(kernel, (a, b), x), call_ensures(kernel, (a, b), y)]
            call_ensures(kernel, (a, b), x) && call_ensures(kernel, (a, b), y) ==> x == y,
        upwind_x(grid, p, swapped) == upwind_y(grid, p, vals),
        upwind_y(grid, p, swapped) == upwind_x(grid, p, vals),
        is_update(grid, p, vals, kernel, r1),
        is_update(grid, p, swapped, kernel, r2),
    ensures
        r1 == r2,
{
    lemma_update_symmetric(upwind_x(grid, p, vals), upwind_y(grid, p, vals));
}

/// Value of cell `p`, or `+inf` when `p` lies outside the grid.
pub fn val_at_point(grid: Grid, p: (i32, i32), vals: &Vec<u32>) -> (r: u32)
    requires
        grid.wf(),
        vals.len() == grid.size(),
    ensures
        r == value_at(grid, p, vals@),
{
    match point_to_idx(grid, p) {
        Some(idx) => {
            proof {
                crate::grid::lemma_index_cell_inverse(grid, p);
            }
            vals[idx]
        },
        None => INFINITY,
    }
}

fn min_of(a: u32, b: u32) -> (r: u32)
    ensures
        r == min_value(a, b),
{
    if a <= b { a } else { b }
}

/// Upwind update of cell `p`: the smaller neighbour on each axis is taken;
/// with `a` the larger and `b` the smaller of those two, the result is `+inf`
/// when `b` is `+inf` and `kernel(a, b)` otherwise. The kernel holds the
/// arithmetic: `b + 1` when `a - b > 1`, else
/// `(a + b + sqrt(2 - (a - b)^2)) / 2`.
pub fn eikonal_update<F: Fn(u32, u32) -> u32>(
    grid: Grid,
    p: (i32, i32),
    vals: &Vec<u32>,
    kernel: &F,
) -> (r: u32)
    requires
        grid.wf(),
        grid.contains(p),
        vals.len() == grid.size(),
        forall|a: u32, b: u32| kernel.requires((a, b)),
    ensures
        is_update(grid, p, vals@, *kernel, r),
{
    let up_p = (p.0 + 1, p.1);
    let down_p = (p.0 - 1, p.1);
    let left_p = (p.0, p.1 - 1);
    let right_p = (p.0, p.1 + 1);
    let u_x = min_of(val_at_point(grid, up_p, vals), val_at_point(grid, down_p, vals));
    let u_y = min_of(val_at_point(grid, right_p, vals), val_at_point(grid, left_p, vals));
    let a = if u_x <= u_y { u_y } else { u_x };
    let b = min_of(u_x, u_y);
    if b == INFINITY {
        INFINITY
    } else {
        kernel(a, b)
    }
}

/// Seeded field: each cell is `+0.0` where `on_curve` holds of it and `+inf`
/// elsewhere, in index order.
pub fn solve<F: Fn((i32, i32)) -> bool>(grid: Grid, on_curve: F) -> (r: Vec<u32>)
    requires
        grid.wf(),
        forall|p: (i32, i32)| on_curve.requires((p,)),
    ensures
        r.len() == grid.size(),
        forall|i: int|
            0 <= i < grid.size() ==> (#[trigger] r@[i] == ZERO || r@[i] == INFINITY)
                && call_ensures(on_curve, (grid.cell_of(i),), r@[i] == ZERO),
{
    let n = grid.len();
    let mut r: Vec<u32> = Vec::new();
    let mut idx: usize = 0;
    while idx < n
        invariant
            grid.wf(),
            n == grid.size(),
            idx <= n,
            r.len() == idx,
            forall|p: (i32, i32)| on_curve.requires((p,)),
            forall|i: int|
                0 <= i < idx ==> (#[trigger] r@[i] == ZERO || r@[i] == INFINITY)
                    && call_ensures(on_curve, (grid.cell_of(i),), r@[i] == ZERO),
        decreases n - idx,
    {
        let p = idx_to_point(grid, idx);
        if on_curve(p) {
            r.push(ZERO);
        } else {
            r.push(INFINITY);
        }
        idx += 1;
    }
    r
}

} // verus!
