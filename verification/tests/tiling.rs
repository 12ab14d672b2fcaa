use prime_spatial::tiling::{cell_index, cell_of, grid_triangles, is_boundary_vertex, phase_schedule};

#[test]
fn cell_of_row_major() {
    assert_eq!(cell_of(0, 4), (0, 0));
    assert_eq!(cell_of(5, 4), (1, 1));
    assert_eq!(cell_of(11, 4), (2, 3));
    assert_eq!(cell_of(7, 1), (7, 0));
}

#[test]
fn boundary_vertices() {
    assert!(is_boundary_vertex(0, 2, 4, 4));
    assert!(is_boundary_vertex(4, 2, 4, 4));
    assert!(is_boundary_vertex(2, 0, 4, 4));
    assert!(is_boundary_vertex(2, 4, 4, 4));
    assert!(!is_boundary_vertex(2, 2, 4, 4));
    assert!(!is_boundary_vertex(1, 3, 4, 4));
}

#[test]
fn grid_triangles_two_by_two() {
    // Vertex grid is 3 wide: indices 0 1 2 / 3 4 5 / 6 7 8.
    let tris = grid_triangles(2, 2);
    assert_eq!(
        tris,
        vec![
            (0, 1, 3), (1, 4, 3), // cell 0 (even): TL-BR diagonal
            (1, 2, 5), (1, 5, 4), // cell 1 (odd): TR-BL diagonal
            (3, 4, 6), (4, 7, 6), // cell 2 (even)
            (4, 5, 8), (4, 8, 7), // cell 3 (odd)
        ]
    );
}

#[test]
fn grid_triangles_count_and_range() {
    let (cols, rows) = (4, 4);
    let tris = grid_triangles(cols, rows);
    assert_eq!(tris.len(), 32);
    let nverts = (cols + 1) * (rows + 1);
    for &(a, b, c) in &tris {
        assert!(a < nverts && b < nverts && c < nverts);
        assert!(a != b && b != c && a != c);
    }
}

#[test]
fn grid_triangles_empty() {
    assert!(grid_triangles(0, 5).is_empty());
    assert!(grid_triangles(3, 0).is_empty());
}

#[test]
fn phase_schedule_three_by_three() {
    let s = phase_schedule(3, 3);
    assert_eq!(
        s,
        vec![
            (0, 0), (0, 2), (2, 0), (2, 2), // phase 0
            (0, 1), (2, 1),                 // phase 1
            (1, 0), (1, 2),                 // phase 2
            (1, 1),                         // phase 3
        ]
    );
}

#[test]
fn phase_schedule_visits_each_tile_once() {
    let (cols, rows) = (5, 4);
    let s = phase_schedule(cols, rows);
    assert_eq!(s.len(), cols * rows);
    for tr in 0..rows {
        for tc in 0..cols {
            assert_eq!(s.iter().filter(|&&t| t == (tr, tc)).count(), 1);
        }
    }
}

#[test]
fn same_phase_tiles_two_apart() {
    let s = phase_schedule(6, 6);
    let phase = |t: (usize, usize)| t.1 % 2 + 2 * (t.0 % 2);
    for &a in &s {
        for &b in &s {
            if a != b && phase(a) == phase(b) {
                let dr = a.0.abs_diff(b.0);
                let dc = a.1.abs_diff(b.1);
                assert!(dr >= 2 || dc >= 2);
            }
        }
    }
}

#[test]
fn cell_index_inverts_cell_of() {
    for cols in 1..6usize {
        for i in 0..30usize {
            let (r, c) = cell_of(i, cols);
            assert_eq!(cell_index(r, c, cols), i);
        }
    }
    assert_eq!(cell_index(2, 3, 4), 11);
}
