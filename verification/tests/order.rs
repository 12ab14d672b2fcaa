use prime_spatial::order::{key_leq, sort_by_bits};

#[test]
fn sort_by_bits_orders_x_then_y() {
    let v = vec![(3, 1), (1, 9), (3, 0), (1, 2), (2, 5)];
    assert_eq!(sort_by_bits(&v), vec![(1, 2), (1, 9), (2, 5), (3, 0), (3, 1)]);
}

#[test]
fn sort_by_bits_keeps_duplicates() {
    let v = vec![(5, 5), (0, 0), (5, 5)];
    assert_eq!(sort_by_bits(&v), vec![(0, 0), (5, 5), (5, 5)]);
}

#[test]
fn sort_by_bits_empty() {
    assert!(sort_by_bits(&Vec::new()).is_empty());
}

#[test]
fn sort_by_bits_matches_float_bit_order() {
    let pts = [(2.5f32, 1.0f32), (0.5, 3.0), (2.5, 0.25), (1.0, 1.0)];
    let keys: Vec<(u32, u32)> = pts.iter().map(|p| (p.0.to_bits(), p.1.to_bits())).collect();
    let sorted: Vec<(f32, f32)> = sort_by_bits(&keys)
        .into_iter()
        .map(|(x, y)| (f32::from_bits(x), f32::from_bits(y)))
        .collect();
    assert_eq!(sorted, vec![(0.5, 3.0), (1.0, 1.0), (2.5, 0.25), (2.5, 1.0)]);
}

#[test]
fn key_leq_lexicographic() {
    assert!(key_leq((1, 5), (2, 0)));
    assert!(key_leq((1, 5), (1, 5)));
    assert!(!key_leq((1, 6), (1, 5)));
}

#[test]
fn sort_by_bits_large_permutation() {
    // Pseudo-random keys with many duplicates; compare against std's sort.
    let mut x: u32 = 12345;
    let v: Vec<(u32, u32)> = (0..5000)
        .map(|_| {
            x = x.wrapping_mul(1_664_525).wrapping_add(1_013_904_223);
            ((x >> 24) % 50, x % 7)
        })
        .collect();
    let mut expected = v.clone();
    expected.sort();
    assert_eq!(sort_by_bits(&v), expected);
}

#[test]
fn sort_by_bits_single() {
    assert_eq!(sort_by_bits(&vec![(9, 9)]), vec![(9, 9)]);
}
