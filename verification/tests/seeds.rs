use prime_spatial::seeds::{
    corner_mix, indexed_seed, lcg_mix, lcg_mix_alt, offset_seed, partition_seed, partition_seeds, sheared_cell_seed,
};

#[test]
fn lcg_mix_exact_values() {
    assert_eq!(lcg_mix(42), 1_083_814_273);
    assert_eq!(lcg_mix(0), 1_013_904_223);
    assert_eq!(lcg_mix(u32::MAX), 1_012_239_698);
}

#[test]
fn lcg_mix_alt_exact_value() {
    assert_eq!(lcg_mix_alt(42), 953_210_035);
    assert_eq!(lcg_mix_alt(0), 1);
}

#[test]
fn corner_mix_exact_value() {
    assert_eq!(corner_mix(42), 1_924_843_143);
}

#[test]
fn indexed_seed_exact_and_truncating() {
    assert_eq!(indexed_seed(42, 7), 69_910_057);
    assert_eq!(indexed_seed(42, 0), (42u32).wrapping_mul(1_664_525));
}

#[test]
fn sheared_cell_seed_exact_value() {
    assert_eq!(sheared_cell_seed(42, 3), 3_805_838_612);
}

#[test]
fn partition_seed_exact_values() {
    assert_eq!(partition_seed(42, 0), 2_424_757_602);
    assert_eq!(partition_seed(42, 5), 2_424_757_607);
    assert_eq!(partition_seed(u32::MAX, 9), 3_010_101_468);
}

#[test]
fn partition_seeds_match_single_and_are_distinct() {
    let seeds = partition_seeds(42, 16);
    assert_eq!(seeds.len(), 16);
    for (i, s) in seeds.iter().enumerate() {
        assert_eq!(*s, partition_seed(42, i));
    }
    for i in 0..seeds.len() {
        for j in (i + 1)..seeds.len() {
            assert_ne!(seeds[i], seeds[j]);
        }
    }
}

#[test]
fn partition_seeds_empty() {
    assert!(partition_seeds(7, 0).is_empty());
}

#[test]
fn lcg_mix_distinct_seeds_stay_distinct() {
    let mixed: Vec<u32> = (0u32..200).map(lcg_mix).collect();
    for i in 0..mixed.len() {
        for j in (i + 1)..mixed.len() {
            assert_ne!(mixed[i], mixed[j]);
        }
    }
    assert_ne!(lcg_mix(42), lcg_mix(43));
}

#[test]
fn offset_seed_wraps() {
    assert_eq!(offset_seed(10, 5), 15);
    assert_eq!(offset_seed(u32::MAX, 2), 1);
    assert_eq!(offset_seed(7, (1usize << 32) + 3), 10);
}
