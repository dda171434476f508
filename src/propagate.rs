//! Priority-ordered settling of a seeded field.

use vstd::prelude::*;
use crate::field::{eikonal_update, is_update, min_value, val_at_point, update_inputs, upwind_x, upwind_y, value_at, INFINITY};
use crate::grid::{idx_to_point, point_to_idx, Grid, lemma_cell_index_inverse, lemma_index_cell_inverse};
use crate::queue::{queue_entries, queue_new, queue_pop, queue_push, CellQueue};

verus! {

/// Queue priority of a value: the queue pops its greatest priority first, so
/// the smallest value comes out first.
pub open spec fn priority_of(v: u32) -> u32 {
    (u32::MAX - v) as u32
}

fn priority(v: u32) -> (r: u32)
    ensures
        r == priority_of(v),
{
    u32::MAX - v
}

/// The open set is exactly the unsettled cells of the grid, each queued at
/// the priority of its current value.
pub open spec fn queue_tracks(grid: Grid, q: Map<(i32, i32), u32>, vals: Seq<u32>, settled: Seq<bool>) -> bool {
    &&& forall|c: (i32, i32)| #[trigger] q.dom().contains(c)
        <==> (grid.contains(c) && !settled[grid.index_of(c)])
    &&& forall|c: (i32, i32)| #[trigger] q.dom().contains(c)
        ==> q[c] == priority_of(vals[grid.index_of(c)])
}

/// `v` can come out of a relaxation: it is `+inf` or a result of `kernel`.
pub open spec fn from_kernel<F: Fn(u32, u32) -> u32>(kernel: F, v: u32) -> bool {
    v == INFINITY || exists|a: u32, b: u32| call_ensures(kernel, (a, b), v)
}

/// The `j`-th axis neighbour of `p`: right, left, below, above.
pub open spec fn neighbor(p: (i32, i32), j: int) -> (i32, i32) {
    if j == 0 {
        ((p.0 + 1) as i32, p.1)
    } else if j == 1 {
        ((p.0 - 1) as i32, p.1)
    } else if j == 2 {
        (p.0, (p.1 + 1) as i32)
    } else {
        (p.0, (p.1 - 1) as i32)
    }
}

/// `c` is one of the first `k` axis neighbours of `p`.
pub open spec fn is_neighbor_below(p: (i32, i32), c: (i32, i32), k: int) -> bool {
    ||| (k > 0 && c == neighbor(p, 0))
    ||| (k > 1 && c == neighbor(p, 1))
    ||| (k > 2 && c == neighbor(p, 2))
    ||| (k > 3 && c == neighbor(p, 3))
}

/// `v` is what relaxing cell `n` of field `vals` may store: the smaller of
/// its current value and a value of its update.
pub open spec fn is_relaxation<F: Fn(u32, u32) -> u32>(
    grid: Grid,
    n: (i32, i32),
    vals: Seq<u32>,
    kernel: F,
    v: u32,
) -> bool {
    exists|u: u32| is_update(grid, n, vals, kernel, u) && v == min_value(vals[grid.index_of(n)], u)
}

/// Cell `n` is relaxed: it lies in the grid and is not settled.
pub open spec fn is_relaxed(grid: Grid, n: (i32, i32), settled: Seq<bool>) -> bool {
    grid.contains(n) && !settled[grid.index_of(n)]
}

/// One settling step takes field `vals` with settled cells `settled` to
/// `vals2` and `settled2`: `p` is an unsettled grid cell of smallest value
/// among the unsettled cells, it becomes settled, each unsettled grid
/// neighbour of `p` is relaxed against `vals`, and every other cell keeps its
/// value.
pub open spec fn is_settle_step<F: Fn(u32, u32) -> u32>(
    grid: Grid,
    kernel: F,
    vals: Seq<u32>,
    settled: Seq<bool>,
    p: (i32, i32),
    vals2: Seq<u32>,
    settled2: Seq<bool>,
) -> bool {
    &&& grid.contains(p)
    &&& !settled[grid.index_of(p)]
    &&& forall|i: int| 0 <= i < grid.size() && !settled[i]
        ==> vals[grid.index_of(p)] <= #[trigger] vals[i]
    &&& settled2 == settled.update(grid.index_of(p), true)
    &&& vals2.len() == vals.len()
    &&& forall|j: int| 0 <= j < 4 && is_relaxed(grid, #[trigger] neighbor(p, j), settled2)
        ==> is_relaxation(grid, neighbor(p, j), vals, kernel, vals2[grid.index_of(neighbor(p, j))])
    &&& forall|c: (i32, i32)| grid.contains(c) && !(is_neighbor_below(p, c, 4) && is_relaxed(grid, c, settled2))
        ==> #[trigger] vals2[grid.index_of(c)] == vals[grid.index_of(c)]
}

/// A run of settling steps: `order[k]` is settled by the step from
/// `fields[k]`, `sets[k]` to `fields[k + 1]`, `sets[k + 1]`.
pub open spec fn is_settle_run<F: Fn(u32, u32) -> u32>(
    grid: Grid,
    kernel: F,
    fields: Seq<Seq<u32>>,
    sets: Seq<Seq<bool>>,
    order: Seq<(i32, i32)>,
) -> bool {
    &&& fields.len() == order.len() + 1
    &&& sets.len() == order.len() + 1
    &&& forall|k: int| 0 <= k < order.len() ==> is_settle_step(
        grid,
        kernel,
        fields[k],
        sets[k],
        #[trigger] order[k],
        fields[k + 1],
        sets[k + 1],
    )
}

/// Every cell of `vals` is `+inf`.
pub open spec fn all_infinite(vals: Seq<u32>) -> bool {
    forall|i: int| 0 <= i < vals.len() ==> #[trigger] vals[i] == INFINITY
}

/// `n` cells, none of them settled.
pub open spec fn none_settled(n: nat) -> Seq<bool> {
    Seq::new(n, |i: int| false)
}

/// Relaxes one cell: when it lies in the grid and is unsettled, its value
/// becomes the smaller of its current value and its update, and it is queued
/// again at that value.
fn relax_cell<F: Fn(u32, u32) -> u32>(
    grid: Grid,
    n: (i32, i32),
    vals: &mut Vec<u32>,
    settled: &Vec<bool>,
    queue: &mut CellQueue,
    kernel: &F,
)
    requires
        grid.wf(),
        old(vals).len() == grid.size(),
        settled.len() == grid.size(),
        forall|a: u32, b: u32| kernel.requires((a, b)),
    ensures
        is_relaxed(grid, n, settled@) ==> exists|c: u32|
            is_update(grid, n, old(vals)@, *kernel, c)
                && final(vals)@ == old(vals)@.update(
                    grid.index_of(n),
                    min_value(old(vals)@[grid.index_of(n)], c),
                ),
        is_relaxed(grid, n, settled@) ==> queue_entries(*final(queue))
            == queue_entries(*old(queue)).insert(n, priority_of(final(vals)@[grid.index_of(n)])),
        !is_relaxed(grid, n, settled@) ==> final(vals)@ == old(vals)@,
        !is_relaxed(grid, n, settled@) ==> queue_entries(*final(queue)) == queue_entries(*old(queue)),
{
    match point_to_idx(grid, n) {
        Some(i) => {
            proof {
                lemma_index_cell_inverse(grid, n);
            }
            if !settled[i] {
                let r0 = val_at_point(grid, n, vals);
                let r1 = eikonal_update(grid, n, vals, kernel);
                let r2 = if r0 <= r1 { r0 } else { r1 };
                vals.set(i, r2);
                queue_push(queue, n, priority(r2));
            }
        },
        None => {},
    }
}

/// Relaxes the four axis neighbours of `p` that lie in the grid and are not
/// settled: each takes the smaller of its value and its update, both read
/// from the field as it was before the call, and is queued again at that
/// value. No other cell changes, and the queue keeps tracking the unsettled
/// cells. On a field whose cells are all settled nothing changes.
pub fn relax_neighbors<F: Fn(u32, u32) -> u32>(
    grid: Grid,
    p: (i32, i32),
    vals: &mut Vec<u32>,
    settled: &Vec<bool>,
    queue: &mut CellQueue,
    kernel: &F,
)
    requires
        grid.wf(),
        grid.contains(p),
        old(vals).len() == grid.size(),
        settled.len() == grid.size(),
        forall|a: u32, b: u32| kernel.requires((a, b)),
        queue_tracks(grid, queue_entries(*old(queue)), old(vals)@, settled@),
    ensures
        final(vals).len() == grid.size(),
        forall|i: int| 0 <= i < grid.size() ==> #[trigger] final(vals)@[i] <= old(vals)@[i],
        forall|i: int| 0 <= i < grid.size() && settled@[i] ==> #[trigger] final(vals)@[i] == old(vals)@[i],
        (forall|i: int| 0 <= i < grid.size() ==> #[trigger] settled@[i]) ==> final(vals)@ == old(vals)@,
        queue_tracks(grid, queue_entries(*final(queue)), final(vals)@, settled@),
        queue_entries(*final(queue)).dom() == queue_entries(*old(queue)).dom(),
        forall|i: int| 0 <= i < grid.size() ==> #[trigger] final(vals)@[i] == old(vals)@[i]
            || from_kernel(*kernel, final(vals)@[i]),
        forall|c: (i32, i32)| grid.contains(c) && !(is_neighbor_below(p, c, 4) && is_relaxed(grid, c, settled@))
            ==> #[trigger] final(vals)@[grid.index_of(c)] == old(vals)@[grid.index_of(c)],
        forall|j: int| 0 <= j < 4 && is_relaxed(grid, #[trigger] neighbor(p, j), settled@)
            ==> is_relaxation(grid, neighbor(p, j), old(vals)@, *kernel, final(vals)@[grid.index_of(neighbor(p, j))]),
        all_infinite(old(vals)@) ==> final(vals)@ == old(vals)@,
{
    let ghost vals0 = vals@;
    let ghost dom0 = queue_entries(*queue).dom();
    let neighbors: [(i32, i32); 4] = [(p.0 + 1, p.1), (p.0 - 1, p.1), (p.0, p.1 + 1), (p.0, p.1 - 1)];
    let mut k: usize = 0;
    while k < 4
        invariant
            grid.wf(),
            vals.len() == grid.size(),
            settled.len() == grid.size(),
            forall|a: u32, b: u32| kernel.requires((a, b)),
            queue_tracks(grid, queue_entries(*queue), vals@, settled@),
            queue_entries(*queue).dom() == dom0,
            forall|i: int| 0 <= i < grid.size() ==> #[trigger] vals@[i] <= vals0[i],
            forall|i: int| 0 <= i < grid.size() && settled@[i] ==> #[trigger] vals@[i] == vals0[i],
            (forall|i: int| 0 <= i < grid.size() ==> #[trigger] settled@[i]) ==> vals@ == vals0,
            forall|i: int| 0 <= i < grid.size() ==> #[trigger] vals@[i] == vals0[i]
                || from_kernel(*kernel, vals@[i]),
            grid.contains(p),
            vals0.len() == grid.size(),
            k <= 4,
            forall|j: int| 0 <= j < 4 ==> neighbors@[j] == #[trigger] neighbor(p, j),
            forall|c: (i32, i32)| grid.contains(c) && !(is_neighbor_below(p, c, k as int) && is_relaxed(grid, c, settled@))
                ==> #[trigger] vals@[grid.index_of(c)] == vals0[grid.index_of(c)],
            forall|j: int| 0 <= j < k && is_relaxed(grid, #[trigger] neighbor(p, j), settled@)
                ==> is_relaxation(grid, neighbor(p, j), vals0, *kernel, vals@[grid.index_of(neighbor(p, j))]),
            all_infinite(vals0) ==> vals@ == vals0,
        decreases 4 - k,
    {
        let n = neighbors[k];
        let ghost before = vals@;
        let ghost q_before = queue_entries(*queue);
        relax_cell(grid, n, vals, settled, queue, kernel);
        proof {
            if is_relaxed(grid, n, settled@) {
                lemma_index_cell_inverse(grid, n);
                let i = grid.index_of(n);
                let u = choose|u: u32| is_update(grid, n, before, *kernel, u)
                    && vals@ == before.update(i, min_value(before[i], u));
                let (a, b) = update_inputs(upwind_x(grid, n, before), upwind_y(grid, n, before));
                if b != INFINITY {
                    assert(call_ensures(*kernel, (a, b), u));
                }
                assert(from_kernel(*kernel, u));
                lemma_neighbors_apart(grid, p, k as int, before, vals0);
                assert(is_update(grid, n, vals0, *kernel, u));
                assert forall|c: (i32, i32)| grid.contains(c) && c != n implies
                    #[trigger] vals@[grid.index_of(c)] == before[grid.index_of(c)] by {
                    lemma_index_cell_inverse(grid, c);
                }
                assert(n == neighbor(p, k as int));
                if all_infinite(vals0) {
                    assert(before == vals0);
                    lemma_infinite_upwind(grid, n, before);
                    assert(u == INFINITY);
                    assert(vals@ =~= before);
                }
                assert(!is_neighbor_below(p, n, k as int));
                assert(before[i] == vals0[i]);
                assert forall|j: int| 0 <= j < k + 1 && is_relaxed(grid, #[trigger] neighbor(p, j), settled@)
                    implies is_relaxation(grid, neighbor(p, j), vals0, *kernel, vals@[grid.index_of(neighbor(p, j))]) by {
                    if j == k {
                        assert(neighbor(p, j) == n);
                        assert(vals@[i] == min_value(vals0[i], u));
                    } else {
                        assert(neighbor(p, j) != n);
                        assert(grid.contains(neighbor(p, j)));
                        assert(vals@[grid.index_of(neighbor(p, j))] == before[grid.index_of(neighbor(p, j))]);
                    }
                }
                assert(q_before.dom().contains(n));
                assert(queue_entries(*queue).dom() =~= q_before.dom());
                assert forall|c: (i32, i32)| #[trigger] queue_entries(*queue).dom().contains(c)
                    implies queue_entries(*queue)[c] == crate::propagate::priority_of(vals@[grid.index_of(c)]) by {
                    if c != n {
                        lemma_index_cell_inverse(grid, c);
                        lemma_index_cell_inverse(grid, n);
                        assert(grid.index_of(c) != i);
                    }
                }
            }
        }
        proof {
            if !is_relaxed(grid, n, settled@) {
                assert(vals@ == before);
                assert(n == neighbor(p, k as int));
            }
        }
        k += 1;
    }
}

/// On a field of `+inf` both upwind values of every cell are `+inf`.
proof fn lemma_infinite_upwind(grid: Grid, n: (i32, i32), vals: Seq<u32>)
    requires
        grid.wf(),
        vals.len() == grid.size(),
        all_infinite(vals),
    ensures
        upwind_x(grid, n, vals) == INFINITY,
        upwind_y(grid, n, vals) == INFINITY,
{
    let cells = seq![
        ((n.0 + 1) as i32, n.1),
        ((n.0 - 1) as i32, n.1),
        (n.0, (n.1 + 1) as i32),
        (n.0, (n.1 - 1) as i32),
    ];
    assert forall|j: int| 0 <= j < 4 implies value_at(grid, #[trigger] cells[j], vals) == INFINITY by {
        if grid.contains(cells[j]) {
            lemma_index_cell_inverse(grid, cells[j]);
        }
    }
    assert(value_at(grid, cells[0], vals) == INFINITY);
    assert(value_at(grid, cells[1], vals) == INFINITY);
    assert(value_at(grid, cells[2], vals) == INFINITY);
    assert(value_at(grid, cells[3], vals) == INFINITY);
}

/// The cells next to the `k`-th neighbour of `p` are not among its first `k`
/// neighbours, so while only those have changed, the update of the `k`-th
/// neighbour reads the same values as before.
proof fn lemma_neighbors_apart(grid: Grid, p: (i32, i32), k: int, now: Seq<u32>, before: Seq<u32>)
    requires
        grid.wf(),
        grid.contains(p),
        0 <= k < 4,
        now.len() == grid.size(),
        before.len() == grid.size(),
        forall|c: (i32, i32)| grid.contains(c) && !is_neighbor_below(p, c, k)
            ==> #[trigger] now[grid.index_of(c)] == before[grid.index_of(c)],
    ensures
        upwind_x(grid, neighbor(p, k), now) == upwind_x(grid, neighbor(p, k), before),
        upwind_y(grid, neighbor(p, k), now) == upwind_y(grid, neighbor(p, k), before),
{
    let n = neighbor(p, k);
    let r = ((n.0 + 1) as i32, n.1);
    let l = ((n.0 - 1) as i32, n.1);
    let d = (n.0, (n.1 + 1) as i32);
    let t = (n.0, (n.1 - 1) as i32);
    assert(!is_neighbor_below(p, r, k));
    assert(!is_neighbor_below(p, l, k));
    assert(!is_neighbor_below(p, d, k));
    assert(!is_neighbor_below(p, t, k));
}

/// Settles the whole field in priority order: every cell enters a queue at
/// its seeded value; the cell of smallest value is popped and settled, and
/// its unsettled neighbours are relaxed and queued again, until the queue is
/// empty. The whole run is one settling step per cell, from the seeded
/// field with nothing settled to the final field with every cell settled. No
/// value grows, and a field of `+inf` stays as it is.
pub fn djikstra<F: Fn(u32, u32) -> u32>(grid: Grid, vals: &mut Vec<u32>, kernel: &F)
    requires
        grid.wf(),
        old(vals).len() == grid.size(),
        forall|a: u32, b: u32| kernel.requires((a, b)),
    ensures
        final(vals).len() == grid.size(),
        forall|i: int| 0 <= i < grid.size() ==> #[trigger] final(vals)@[i] <= old(vals)@[i],
        exists|fields: Seq<Seq<u32>>, sets: Seq<Seq<bool>>, order: Seq<(i32, i32)>|
            #[trigger] is_settle_run(grid, *kernel, fields, sets, order)
                && order.len() == grid.size()
                && fields[0] == old(vals)@
                && sets[0] == none_settled(grid.size())
                && fields.last() == final(vals)@
                && forall|i: int| 0 <= i < grid.size() ==> #[trigger] sets.last()[i],
        all_infinite(old(vals)@) ==> final(vals)@ == old(vals)@,
{
    let ghost vals0 = vals@;
    let n = grid.len();
    let mut settled: Vec<bool> = Vec::new();
    let mut queue = queue_new();
    let mut idx: usize = 0;
    while idx < n
        invariant
            grid.wf(),
            n == grid.size(),
            idx <= n,
            vals.len() == n,
            vals@ == vals0,
            settled.len() == idx,
            forall|i: int| 0 <= i < idx ==> !#[trigger] settled@[i],
            queue_entries(queue).dom().finite(),
            queue_entries(queue).dom().len() == idx,
            forall|c: (i32, i32)| #[trigger] queue_entries(queue).dom().contains(c)
                <==> (grid.contains(c) && grid.index_of(c) < idx),
            forall|c: (i32, i32)| #[trigger] queue_entries(queue).dom().contains(c)
                ==> queue_entries(queue)[c] == priority_of(vals@[grid.index_of(c)]),
        decreases n - idx,
    {
        let p = idx_to_point(grid, idx);
        proof {
            lemma_cell_index_inverse(grid, idx as int);
            assert forall|c: (i32, i32)| grid.contains(c) && grid.index_of(c) == idx implies c == p by {
                lemma_index_cell_inverse(grid, c);
            }
            assert(!queue_entries(queue).dom().contains(p));
        }
        queue_push(&mut queue, p, priority(vals[idx]));
        settled.push(false);
        idx += 1;
    }
    proof {
        assert forall|c: (i32, i32)| #[trigger] queue_entries(queue).dom().contains(c)
            <==> (grid.contains(c) && !settled@[grid.index_of(c)]) by {
            if grid.contains(c) {
                lemma_index_cell_inverse(grid, c);
            }
        }
        assert(settled@ =~= none_settled(n as nat));
    }
    let ghost mut fields: Seq<Seq<u32>> = seq![vals@];
    let ghost mut sets: Seq<Seq<bool>> = seq![settled@];
    let ghost mut order: Seq<(i32, i32)> = Seq::empty();
    loop
        invariant
            grid.wf(),
            n == grid.size(),
            vals.len() == n,
            settled.len() == n,
            forall|a: u32, b: u32| kernel.requires((a, b)),
            queue_entries(queue).dom().finite(),
            queue_tracks(grid, queue_entries(queue), vals@, settled@),
            forall|i: int| 0 <= i < n ==> #[trigger] vals@[i] <= vals0[i],
            is_settle_run(grid, *kernel, fields, sets, order),
            fields[0] == vals0,
            sets[0] == none_settled(n as nat),
            fields.last() == vals@,
            sets.last() == settled@,
            queue_entries(queue).dom().len() + order.len() == n,
            all_infinite(vals0) ==> vals@ == vals0,
        ensures
            order.len() == n,
            forall|i: int| 0 <= i < n ==> #[trigger] settled@[i],
        decreases queue_entries(queue).dom().len(),
    {
        let ghost vals_before = vals@;
        let ghost settled_before = settled@;
        let ghost dom_before = queue_entries(queue).dom();
        match settle_next(grid, vals, &mut settled, &mut queue, kernel) {
            None => {
                proof {
                    assert(queue_entries(queue).dom() =~= Set::<(i32, i32)>::empty()) by {
                        assert forall|c: (i32, i32)| !queue_entries(queue).dom().contains(c) by {
                            if grid.contains(c) {
                                lemma_index_cell_inverse(grid, c);
                            }
                        }
                    }
                }
                break;
            },
            Some(p) => {
                proof {
                    let fields2 = fields.push(vals@);
                    let sets2 = sets.push(settled@);
                    let order2 = order.push(p);
                    assert forall|k: int| 0 <= k < order2.len() implies is_settle_step(
                        grid,
                        *kernel,
                        fields2[k],
                        sets2[k],
                        #[trigger] order2[k],
                        fields2[k + 1],
                        sets2[k + 1],
                    ) by {
                        if k < order.len() {
                            assert(order2[k] == order[k]);
                        }
                    }
                    assert(dom_before.contains(p));
                    fields = fields2;
                    sets = sets2;
                    order = order2;
                }
            },
        }
    }
    proof {
        assert(is_settle_run(grid, *kernel, fields, sets, order));
        assert(forall|i: int| 0 <= i < grid.size() ==> #[trigger] sets.last()[i]);
    }
}

/// One step of the propagation: pops an unsettled cell of smallest value,
/// settles it and relaxes its neighbours, and returns it; returns `None`,
/// changing nothing, once every cell is settled.
pub fn settle_next<F: Fn(u32, u32) -> u32>(
    grid: Grid,
    vals: &mut Vec<u32>,
    settled: &mut Vec<bool>,
    queue: &mut CellQueue,
    kernel: &F,
) -> (r: Option<(i32, i32)>)
    requires
        grid.wf(),
        old(vals).len() == grid.size(),
        old(settled).len() == grid.size(),
        forall|a: u32, b: u32| kernel.requires((a, b)),
        queue_tracks(grid, queue_entries(*old(queue)), old(vals)@, old(settled)@),
        queue_entries(*old(queue)).dom().finite(),
    ensures
        final(vals).len() == grid.size(),
        final(settled).len() == grid.size(),
        queue_entries(*final(queue)).dom().finite(),
        queue_tracks(grid, queue_entries(*final(queue)), final(vals)@, final(settled)@),
        r.is_none() <==> forall|i: int| 0 <= i < grid.size() ==> #[trigger] old(settled)@[i],
        r.is_none() ==> final(vals)@ == old(vals)@ && final(settled)@ == old(settled)@
            && queue_entries(*final(queue)) == queue_entries(*old(queue)),
        r matches Some(p) ==> {
            &&& grid.contains(p)
            &&& !old(settled)@[grid.index_of(p)]
            &&& forall|i: int| 0 <= i < grid.size() && !old(settled)@[i]
                ==> old(vals)@[grid.index_of(p)] <= #[trigger] old(vals)@[i]
            &&& final(settled)@ == old(settled)@.update(grid.index_of(p), true)
            &&& queue_entries(*final(queue)).dom() == queue_entries(*old(queue)).dom().remove(p)
            &&& is_settle_step(grid, *kernel, old(vals)@, old(settled)@, p, final(vals)@, final(settled)@)
        },
        all_infinite(old(vals)@) ==> final(vals)@ == old(vals)@,
        forall|i: int| 0 <= i < grid.size() ==> #[trigger] final(vals)@[i] <= old(vals)@[i],
        forall|i: int| 0 <= i < grid.size() && old(settled)@[i] ==> #[trigger] final(vals)@[i] == old(vals)@[i],
        forall|i: int| 0 <= i < grid.size() ==> #[trigger] final(vals)@[i] == old(vals)@[i]
            || from_kernel(*kernel, final(vals)@[i]),
{
    let ghost q_before = queue_entries(*queue);
    match queue_pop(queue) {
        None => {
            proof {
                q_before.dom().lemma_len0_is_empty();
                assert forall|i: int| 0 <= i < grid.size() implies #[trigger] settled@[i] by {
                    lemma_cell_index_inverse(grid, i);
                    if !settled@[i] {
                        assert(q_before.dom().contains(grid.cell_of(i)));
                    }
                }
            }
            None
        },
        Some((p, _)) => {
            proof {
                lemma_index_cell_inverse(grid, p);
                let ip = grid.index_of(p);
                assert forall|i: int| 0 <= i < grid.size() && !settled@[i]
                    implies vals@[ip] <= #[trigger] vals@[i] by {
                    lemma_cell_index_inverse(grid, i);
                    assert(q_before.dom().contains(grid.cell_of(i)));
                }
            }
            let i = point_to_idx(grid, p).unwrap();
            settled.set(i, true);
            proof {
                assert forall|c: (i32, i32)| #[trigger] queue_entries(*queue).dom().contains(c)
                    <==> (grid.contains(c) && !settled@[grid.index_of(c)]) by {
                    if grid.contains(c) && c != p {
                        lemma_index_cell_inverse(grid, c);
                        assert(grid.index_of(c) != i);
                    }
                }
            }
            relax_neighbors(grid, p, vals, settled, queue, kernel);
            Some(p)
        },
    }
}

} // verus!
