use generalized_djikstra::{
    djikstra, eikonal_update, idx_to_point, point_to_idx, relax_neighbors, settle_next, solve,
    val_at_point,
    CellQueue, Grid, INFINITY, TEX_COLS, TEX_ROWS, ZERO,
};

/// The arithmetic of the upwind update on `(a, b)`, the larger and the
/// smaller upwind value.
fn kernel(a: u32, b: u32) -> u32 {
    let a = f32::from_bits(a);
    let b = f32::from_bits(b);
    let r = if a - b > 1.0 {
        b + 1.0
    } else {
        0.5 * (a + b + f32::sqrt(2.0 - (a - b) * (a - b)))
    };
    r.to_bits()
}

fn bits(v: &[f32]) -> Vec<u32> {
    v.iter().map(|x| x.to_bits()).collect()
}

fn floats(v: &[u32]) -> Vec<f32> {
    v.iter().map(|&x| f32::from_bits(x)).collect()
}

fn seeded(grid: Grid, seed: (i32, i32)) -> Vec<u32> {
    solve(grid, |p: (i32, i32)| p == seed)
}

#[test]
fn infinity_is_f32_infinity() {
    assert_eq!(INFINITY, f32::INFINITY.to_bits());
    assert_eq!(ZERO, 0.0f32.to_bits());
}

#[test]
fn index_to_cell_on_texture_grid() {
    let g = Grid { cols: TEX_COLS, rows: TEX_ROWS };
    assert_eq!(idx_to_point(g, 0), (0, 0));
    assert_eq!(idx_to_point(g, 1023), (1023, 0));
    assert_eq!(idx_to_point(g, 1024), (0, 1));
    assert_eq!(idx_to_point(g, 1024 * 1024 - 1), (1023, 1023));
    assert_eq!(idx_to_point(g, 5 + 7 * 1024), (5, 7));
}

#[test]
fn cell_to_index_inside_and_outside() {
    let g = Grid { cols: 4, rows: 3 };
    assert_eq!(point_to_idx(g, (0, 0)), Some(0));
    assert_eq!(point_to_idx(g, (3, 2)), Some(11));
    assert_eq!(point_to_idx(g, (1, 2)), Some(9));
    assert_eq!(point_to_idx(g, (4, 0)), None);
    assert_eq!(point_to_idx(g, (0, 3)), None);
    assert_eq!(point_to_idx(g, (-1, 0)), None);
    assert_eq!(point_to_idx(g, (0, -1)), None);
}

#[test]
fn index_round_trip() {
    let g = Grid { cols: 5, rows: 3 };
    for idx in 0..15usize {
        assert_eq!(point_to_idx(g, idx_to_point(g, idx)), Some(idx));
    }
}

#[test]
fn outside_cells_read_as_infinity() {
    for &(cols, rows) in &[(1, 1), (3, 3), (4, 2)] {
        let g = Grid { cols, rows };
        let vals = vec![ZERO; (cols * rows) as usize];
        for &p in &[(-1, 0), (0, -1), (cols, 0), (0, rows), (cols, rows), (i32::MIN, i32::MAX)] {
            assert_eq!(val_at_point(g, p, &vals), INFINITY);
        }
        assert_eq!(val_at_point(g, (0, 0), &vals), ZERO);
    }
}

#[test]
fn update_symmetric_under_axis_swap() {
    let g = Grid { cols: 3, rows: 3 };
    let inf = f32::INFINITY;
    // Horizontal neighbours of the centre hold 0.5, vertical ones 1.2.
    let field = bits(&[inf, 1.2, inf, 0.5, inf, 0.5, inf, 1.2, inf]);
    // The same field transposed.
    let swapped = bits(&[inf, 0.5, inf, 1.2, inf, 1.2, inf, 0.5, inf]);
    let r1 = eikonal_update(g, (1, 1), &field, &kernel);
    let r2 = eikonal_update(g, (1, 1), &swapped, &kernel);
    assert_eq!(r1, r2);
    assert_eq!(r1, kernel(1.2f32.to_bits(), 0.5f32.to_bits()));
}

#[test]
fn update_branches_agree_when_gap_is_one() {
    let g = Grid { cols: 2, rows: 2 };
    let inf = f32::INFINITY;
    let field = bits(&[inf, 2.0, 1.0, inf]);
    let r = f32::from_bits(eikonal_update(g, (0, 0), &field, &kernel));
    assert_eq!(r, 1.0 + 1.0);
    assert_eq!(r, 0.5 * (2.0 + 1.0 + f32::sqrt(1.0)));
}

#[test]
fn update_without_finite_neighbour_is_infinite() {
    let g = Grid { cols: 3, rows: 1 };
    let field = bits(&[f32::INFINITY, 0.0, f32::INFINITY]);
    assert_eq!(eikonal_update(g, (1, 0), &field, &kernel), INFINITY);
    assert_eq!(eikonal_update(g, (0, 0), &field, &kernel), 1.0f32.to_bits());
}

#[test]
fn update_far_gap_uses_one_dimensional_step() {
    let g = Grid { cols: 2, rows: 2 };
    let field = bits(&[f32::INFINITY, 0.5, 3.0, f32::INFINITY]);
    assert_eq!(f32::from_bits(eikonal_update(g, (0, 0), &field, &kernel)), 1.5);
}

#[test]
fn seeding_marks_cells_on_the_curve() {
    let g = Grid { cols: 3, rows: 2 };
    let vals = solve(g, |p: (i32, i32)| p.0 == p.1);
    assert_eq!(vals, vec![ZERO, INFINITY, INFINITY, INFINITY, ZERO, INFINITY]);
    let none = solve(g, |_p: (i32, i32)| false);
    assert_eq!(none, vec![INFINITY; 6]);
}

#[test]
fn relaxing_a_settled_field_changes_nothing() {
    let g = Grid { cols: 3, rows: 3 };
    let mut vals = seeded(g, (1, 1));
    let before = vals.clone();
    let settled = vec![true; 9];
    let mut queue: CellQueue = CellQueue::new();
    relax_neighbors(g, (1, 1), &mut vals, &settled, &mut queue, &kernel);
    assert_eq!(vals, before);
    assert!(queue.is_empty());
}

#[test]
fn relaxing_updates_unsettled_neighbours() {
    let g = Grid { cols: 3, rows: 3 };
    let mut vals = seeded(g, (1, 1));
    let mut settled = vec![false; 9];
    settled[4] = true;
    let mut queue: CellQueue = CellQueue::new();
    for idx in 0..9usize {
        if !settled[idx] {
            queue.push(idx_to_point(g, idx), u32::MAX - vals[idx]);
        }
    }
    relax_neighbors(g, (1, 1), &mut vals, &settled, &mut queue, &kernel);
    let f = floats(&vals);
    let inf = f32::INFINITY;
    assert_eq!(f, vec![inf, 1.0, inf, 1.0, 0.0, 1.0, inf, 1.0, inf]);
    assert_eq!(queue.len(), 8);
    assert_eq!(queue.get_priority(&(1, 0)), Some(&(u32::MAX - 1.0f32.to_bits())));
}

#[test]
fn three_by_three_single_seed() {
    let g = Grid { cols: 3, rows: 3 };
    let mut vals = seeded(g, (1, 1));
    djikstra(g, &mut vals, &kernel);
    let f = floats(&vals);
    let diag: f32 = 0.5 * (1.0 + 1.0 + f32::sqrt(2.0));
    assert!((diag - 1.707_106_8).abs() < 1e-6);
    assert_eq!(f[4], 0.0);
    for &i in &[1usize, 3, 5, 7] {
        assert_eq!(f[i], 1.0);
    }
    for &i in &[0usize, 2, 6, 8] {
        assert_eq!(f[i], diag);
    }
}

#[test]
fn five_by_five_single_seed() {
    let g = Grid { cols: 5, rows: 5 };
    let mut vals = seeded(g, (2, 2));
    djikstra(g, &mut vals, &kernel);
    let f = floats(&vals);
    let (d1, d2, e, c) = (1.707_106_8f32, 2.0f32, 2.545_328_9f32, 3.252_435_7f32);
    let expected = [
        c, e, d2, e, c, //
        e, d1, 1.0, d1, e, //
        d2, 1.0, 0.0, 1.0, d2, //
        e, d1, 1.0, d1, e, //
        c, e, d2, e, c,
    ];
    for i in 0..25 {
        assert!((f[i] - expected[i]).abs() < 1e-6, "cell {} is {}", i, f[i]);
    }
}

#[test]
fn propagation_never_raises_values() {
    let g = Grid { cols: 4, rows: 3 };
    let mut vals = bits(&[
        f32::INFINITY, 0.0, f32::INFINITY, 0.25, //
        f32::INFINITY, f32::INFINITY, f32::INFINITY, f32::INFINITY, //
        0.5, f32::INFINITY, f32::INFINITY, f32::INFINITY,
    ]);
    let before = vals.clone();
    djikstra(g, &mut vals, &kernel);
    for i in 0..12 {
        assert!(vals[i] <= before[i]);
        assert!(f32::from_bits(vals[i]).is_finite());
    }
    assert_eq!(vals[1], ZERO);
    assert_eq!(f32::from_bits(vals[3]), 0.25);
    assert_eq!(f32::from_bits(vals[2]), 1.0);
}

#[test]
fn unreachable_cells_stay_infinite() {
    let g = Grid { cols: 3, rows: 2 };
    let mut vals = vec![INFINITY; 6];
    djikstra(g, &mut vals, &kernel);
    assert_eq!(vals, vec![INFINITY; 6]);
}

#[test]
fn single_cell_grid() {
    let g = Grid { cols: 1, rows: 1 };
    let mut vals = vec![ZERO];
    djikstra(g, &mut vals, &kernel);
    assert_eq!(vals, vec![ZERO]);
}

fn open_set(grid: Grid, vals: &[u32]) -> CellQueue {
    let mut queue: CellQueue = CellQueue::new();
    for (idx, &v) in vals.iter().enumerate() {
        queue.push(idx_to_point(grid, idx), u32::MAX - v);
    }
    queue
}

#[test]
fn settled_values_never_decrease() {
    let g = Grid { cols: 5, rows: 5 };
    let mut vals = seeded(g, (2, 2));
    let mut settled = vec![false; 25];
    let mut queue = open_set(g, &vals);
    let mut order: Vec<u32> = Vec::new();
    while let Some(p) = settle_next(g, &mut vals, &mut settled, &mut queue, &kernel) {
        order.push(vals[point_to_idx(g, p).unwrap()]);
    }
    assert_eq!(order.len(), 25);
    assert_eq!(order[0], ZERO);
    for w in order.windows(2) {
        assert!(f32::from_bits(w[0]) <= f32::from_bits(w[1]));
    }
    assert!(settled.iter().all(|&s| s));
    assert!(queue.is_empty());
}

#[test]
fn settle_step_takes_smallest_unsettled() {
    let g = Grid { cols: 3, rows: 3 };
    let mut vals = seeded(g, (1, 1));
    let mut settled = vec![false; 9];
    let mut queue = open_set(g, &vals);
    assert_eq!(settle_next(g, &mut vals, &mut settled, &mut queue, &kernel), Some((1, 1)));
    assert!(settled[4]);
    assert_eq!(queue.len(), 8);
    let second = settle_next(g, &mut vals, &mut settled, &mut queue, &kernel).unwrap();
    assert!([(1, 0), (0, 1), (2, 1), (1, 2)].contains(&second));
    assert_eq!(f32::from_bits(vals[point_to_idx(g, second).unwrap()]), 1.0);
}

#[test]
fn settle_step_on_finished_field_is_none() {
    let g = Grid { cols: 2, rows: 1 };
    let mut vals = vec![ZERO, INFINITY];
    let mut settled = vec![true; 2];
    let mut queue: CellQueue = CellQueue::new();
    assert_eq!(settle_next(g, &mut vals, &mut settled, &mut queue, &kernel), None);
    assert_eq!(vals, vec![ZERO, INFINITY]);
}
