use prime_spatial::delaunay::{boundary_edges, drop_super, insert_point, remove_bad, super_triangle, triangulate};

#[test]
fn super_triangle_uses_super_vertices() {
    assert_eq!(super_triangle(3), vec![(3, 4, 5)]);
}

#[test]
fn boundary_of_single_bad_triangle_is_its_edges() {
    let tris = vec![(0, 1, 2), (3, 4, 5)];
    assert_eq!(boundary_edges(&tris, &vec![1]), vec![(3, 4), (4, 5), (5, 3)]);
}

#[test]
fn shared_edge_is_not_boundary() {
    // Two triangles sharing edge 1-2 (in opposite directions).
    let tris = vec![(0, 1, 2), (2, 1, 3)];
    assert_eq!(boundary_edges(&tris, &vec![0, 1]), vec![(0, 1), (2, 0), (1, 3), (3, 2)]);
}

#[test]
fn shared_edge_with_non_bad_triangle_is_boundary() {
    let tris = vec![(0, 1, 2), (2, 1, 3)];
    assert_eq!(boundary_edges(&tris, &vec![0]), vec![(0, 1), (1, 2), (2, 0)]);
}

#[test]
fn remove_bad_swap_removes_from_the_top() {
    let mut tris = vec![(0, 0, 0), (1, 1, 1), (2, 2, 2), (3, 3, 3), (4, 4, 4)];
    remove_bad(&mut tris, &vec![1, 3]);
    // Remove position 3 (4 moves in), then position 1 (4 moves in again).
    assert_eq!(tris, vec![(0, 0, 0), (4, 4, 4), (2, 2, 2)]);
}

#[test]
fn remove_bad_nothing() {
    let mut tris = vec![(0, 1, 2)];
    remove_bad(&mut tris, &vec![]);
    assert_eq!(tris, vec![(0, 1, 2)]);
}

#[test]
fn insert_first_point_fans_super_triangle() {
    let n = 3;
    let tris = super_triangle(n);
    let tris = insert_point(tris, 0, &vec![0]);
    assert_eq!(tris, vec![(0, 3, 4), (0, 4, 5), (0, 5, 3)]);
}

#[test]
fn insertion_keeps_count_for_interior_point() {
    // Inserting a point inside one triangle replaces it by three.
    let tris = vec![(0, 3, 4), (0, 4, 5), (0, 5, 3)];
    let out = insert_point(tris, 1, &vec![1]);
    assert_eq!(out.len(), 5);
    assert_eq!(out, vec![(0, 3, 4), (0, 5, 3), (1, 0, 4), (1, 4, 5), (1, 5, 0)]);
}

#[test]
fn drop_super_keeps_inner_triangles_only() {
    let tris = vec![(0, 1, 2), (0, 1, 3), (2, 4, 1), (1, 2, 0)];
    assert_eq!(drop_super(&tris, 3), vec![(0, 1, 2), (1, 2, 0)]);
}

#[test]
fn three_point_triangulation_skeleton() {
    // Combinatorial run of Bowyer-Watson for three points where each new
    // point lies in the circumcircle of exactly the triangles marked bad.
    let n = 3;
    let mut tris = super_triangle(n);
    tris = insert_point(tris, 0, &vec![0]);
    tris = insert_point(tris, 1, &vec![1]);
    let bad: Vec<usize> = (0..tris.len()).filter(|&t| { let (a, b, c) = tris[t]; a == 1 || b == 1 || c == 1 }).collect();
    tris = insert_point(tris, 2, &bad);
    let out = drop_super(&tris, n);
    for &(a, b, c) in &out {
        assert!(a < n && b < n && c < n);
        assert!(a != b && b != c && a != c);
    }
}

#[test]
fn fan_triangles_have_distinct_vertex_sets() {
    let n = 4;
    let mut tris = super_triangle(n);
    tris = insert_point(tris, 0, &vec![0]);
    tris = insert_point(tris, 1, &vec![0, 2]);
    tris = insert_point(tris, 2, &vec![1]);
    tris = insert_point(tris, 3, &vec![0]);
    let mut sets: Vec<[usize; 3]> = tris
        .iter()
        .map(|&(a, b, c)| {
            let mut s = [a, b, c];
            s.sort();
            s
        })
        .collect();
    let before = sets.len();
    sets.sort();
    sets.dedup();
    assert_eq!(sets.len(), before);
    for t in drop_super(&tris, n) {
        assert!(t.0 < n && t.1 < n && t.2 < n);
    }
}

/// Points of the test triangulations followed by a super-triangle around them.
fn with_super(points: &[(f64, f64)]) -> Vec<(f64, f64)> {
    let mut all = points.to_vec();
    all.push((-100.0, -10.0));
    all.push((0.0, 100.0));
    all.push((100.0, -10.0));
    all
}

fn in_circle(all: &[(f64, f64)], i: usize, (a, b, c): (usize, usize, usize)) -> bool {
    let (px, py) = all[i];
    let (ax, ay) = all[a];
    let (bx, by) = all[b];
    let (cx, cy) = all[c];
    let (dx, dy) = (ax - px, ay - py);
    let (ex, ey) = (bx - px, by - py);
    let (fx, fy) = (cx - px, cy - py);
    let det = (dx * dx + dy * dy) * (ex * fy - ey * fx) - (ex * ex + ey * ey) * (dx * fy - dy * fx)
        + (fx * fx + fy * fy) * (dx * ey - dy * ex);
    let orient = (bx - ax) * (cy - ay) - (by - ay) * (cx - ax);
    if orient > 0.0 {
        det > 0.0
    } else {
        det < 0.0
    }
}

fn vertex_sets(tris: &[(usize, usize, usize)]) -> Vec<[usize; 3]> {
    let mut sets: Vec<[usize; 3]> = tris
        .iter()
        .map(|&(a, b, c)| {
            let mut s = [a, b, c];
            s.sort();
            s
        })
        .collect();
    sets.sort();
    sets
}

#[test]
fn triangulate_fewer_than_three_points_is_empty() {
    assert!(triangulate(0, |_i: usize, _t: (usize, usize, usize)| true).is_empty());
    assert!(triangulate(2, |_i: usize, _t: (usize, usize, usize)| true).is_empty());
}

#[test]
fn triangulate_three_points_gives_one_triangle() {
    let all = with_super(&[(0.0, 0.0), (1.0, 0.0), (0.0, 1.0)]);
    let tris = triangulate(3, |i: usize, t: (usize, usize, usize)| in_circle(&all, i, t));
    assert_eq!(vertex_sets(&tris), vec![[0, 1, 2]]);
}

#[test]
fn triangulate_square_gives_two_triangles() {
    let all = with_super(&[(0.0, 0.0), (2.0, 0.0), (2.0, 1.0), (0.0, 1.1)]);
    let tris = triangulate(4, |i: usize, t: (usize, usize, usize)| in_circle(&all, i, t));
    assert_eq!(tris.len(), 2);
    let sets = vertex_sets(&tris);
    for s in &sets {
        assert!(s[2] < 4 && s[0] != s[1] && s[1] != s[2]);
    }
    let mut deduped = sets.clone();
    deduped.dedup();
    assert_eq!(deduped, sets);
}

#[test]
fn triangulate_without_circumcircle_hits_keeps_only_the_super_triangle() {
    // No insertion finds a bad triangle, so nothing is ever fanned in and
    // every remaining triangle touches the super-triangle.
    assert!(triangulate(3, |_i: usize, _t: (usize, usize, usize)| false).is_empty());
}
