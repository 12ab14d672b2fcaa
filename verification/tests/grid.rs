use prime_spatial::grid::{min_dist_cull, window, AcceptGrid};

#[test]
fn window_clips_to_grid() {
    assert_eq!(window(0, 10), (0, 3));
    assert_eq!(window(1, 10), (0, 4));
    assert_eq!(window(5, 10), (3, 8));
    assert_eq!(window(9, 10), (7, 10));
    assert_eq!(window(0, 1), (0, 1));
}

#[test]
fn new_grid_is_empty() {
    let g = AcceptGrid::new(4, 3);
    assert_eq!(g.cols(), 4);
    assert_eq!(g.rows(), 3);
    assert_eq!(g.count(), 0);
    for y in 0..3 {
        for x in 0..4 {
            assert!(g.neighbors(x, y).is_empty());
        }
    }
}

#[test]
fn record_hands_out_indices_in_order() {
    let mut g = AcceptGrid::new(8, 8);
    assert_eq!(g.record(0, 0), 0);
    assert_eq!(g.record(7, 7), 1);
    assert_eq!(g.record(3, 4), 2);
    assert_eq!(g.count(), 3);
}

#[test]
fn neighbors_scan_order_is_row_major() {
    let mut g = AcceptGrid::new(10, 10);
    let a = g.record(5, 6); // row 6
    let b = g.record(4, 5); // row 5
    let c = g.record(6, 5); // row 5, right of b
    let far = g.record(0, 0);
    assert_eq!(g.neighbors(5, 5), vec![b, c, a]);
    assert!(!g.neighbors(5, 5).contains(&far));
}

#[test]
fn recorded_point_seen_from_two_cells_away() {
    let mut g = AcceptGrid::new(10, 10);
    let idx = g.record(4, 4);
    for qy in 2..=6 {
        for qx in 2..=6 {
            assert!(g.neighbors(qx, qy).contains(&idx));
        }
    }
    assert!(!g.neighbors(7, 4).contains(&idx));
    assert!(!g.neighbors(4, 1).contains(&idx));
}

#[test]
fn record_overwrites_cell() {
    let mut g = AcceptGrid::new(3, 3);
    let first = g.record(1, 1);
    let second = g.record(1, 1);
    let seen = g.neighbors(1, 1);
    assert_eq!(seen, vec![second]);
    assert!(!seen.contains(&first));
}

#[test]
fn neighbors_at_corner_are_clipped() {
    let mut g = AcceptGrid::new(3, 3);
    let i0 = g.record(0, 0);
    let i1 = g.record(2, 2);
    assert_eq!(g.neighbors(0, 0), vec![i0, i1]);
}

#[test]
fn cull_skips_candidates_without_a_cell() {
    let cells = vec![None, Some((0, 0)), None];
    assert_eq!(min_dist_cull(3, 3, &cells, |_c: usize, _a: usize| true), vec![1]);
}

#[test]
fn cull_only_compares_with_the_neighbourhood() {
    // Candidate 1 sits seven columns away from candidate 0, outside its 5 × 5
    // block, so it is accepted although the test calls everything too close.
    let cells = vec![Some((0, 0)), Some((7, 0)), Some((1, 0)), None];
    assert_eq!(min_dist_cull(10, 1, &cells, |_c: usize, _a: usize| true), vec![0, 1]);
}

#[test]
fn cull_keeps_points_at_least_min_dist_apart() {
    // Points on a line, min_dist 2 (squared 4), cells of side 1.
    let xs = [0i64, 1, 2, 3, 4, 7, 8];
    let cells: Vec<Option<(usize, usize)>> = xs.iter().map(|&x| Some((x as usize, 0))).collect();
    let kept = min_dist_cull(10, 1, &cells, |c: usize, a: usize| (xs[c] - xs[a]) * (xs[c] - xs[a]) < 4);
    assert_eq!(kept, vec![0, 2, 4, 5]);
}

#[test]
fn cull_with_everything_far_keeps_all() {
    let cells = vec![Some((0, 0)), Some((1, 1)), Some((2, 2))];
    assert_eq!(min_dist_cull(3, 3, &cells, |_c: usize, _a: usize| false), vec![0, 1, 2]);
}

#[test]
fn cull_accepted_pairs_in_near_cells_passed_the_test() {
    // A 2-D lattice of candidates one cell apart; min_dist² = 5.
    let mut pts: Vec<(i64, i64)> = Vec::new();
    for y in 0..6 {
        for x in 0..6 {
            pts.push((x, y));
        }
    }
    let cells: Vec<Option<(usize, usize)>> = pts.iter().map(|&(x, y)| Some((x as usize, y as usize))).collect();
    let close = |c: usize, a: usize| {
        let (dx, dy) = (pts[c].0 - pts[a].0, pts[c].1 - pts[a].1);
        dx * dx + dy * dy < 5
    };
    let kept = min_dist_cull(6, 6, &cells, close);
    assert!(!kept.is_empty());
    for (k, &a) in kept.iter().enumerate() {
        for &b in &kept[k + 1..] {
            assert!(a < b);
            assert!(!close(b, a));
        }
    }
}
