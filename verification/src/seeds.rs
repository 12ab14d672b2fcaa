//! Seed derivation.
//!
//! Every sampler threads a 32-bit seed. Sub-seeds for phases, partitions and
//! recursion levels are derived by fixed affine maps modulo 2^32 (or modulo
//! 2^64 followed by truncation to the low 32 bits).
use vstd::prelude::*;
use vstd::arithmetic::div_mod::*;

verus! {

/// 2^32, the modulus of every derived seed.
pub open spec fn m32() -> int {
    0x1_0000_0000
}

/// The affine map `seed * mul + add` reduced modulo 2^32.
pub open spec fn affine32(seed: int, mul: int, add: int) -> int {
    (seed * mul + add) % m32()
}

/// Scatter-phase seed: one LCG step with multiplier 1664525 and increment 1013904223.
pub open spec fn spec_lcg_mix(seed: u32) -> int {
    affine32(seed as int, 1664525, 1013904223)
}

/// Multiplier of the 64-bit mix used for per-partition seeds.
pub open spec fn partition_mul() -> int {
    6364136223846793005
}

/// Per-partition seed: `seed * 6364136223846793005 + index` modulo 2^64, low 32 bits.
pub open spec fn spec_partition_seed(seed: u32, index: int) -> int {
    (seed as int * partition_mul() + index) % m32()
}

/// Scatter-phase seed: one LCG step (multiplier 1664525, increment 1013904223).
pub fn lcg_mix(seed: u32) -> (r: u32)
    ensures
        r == spec_lcg_mix(seed),
{
    proof {
        lemma_wrapping_affine(seed, 1664525u32, 1013904223u32);
    }
    seed.wrapping_mul(1664525u32).wrapping_add(1013904223u32)
}

/// Alternative scatter seed used by the triangle tiling: `seed * 22695477 + 1` modulo 2^32.
pub fn lcg_mix_alt(seed: u32) -> (r: u32)
    ensures
        r == affine32(seed as int, 22695477, 1),
{
    proof {
        lemma_wrapping_affine(seed, 22695477u32, 1u32);
    }
    seed.wrapping_mul(22695477u32).wrapping_add(1u32)
}

/// Corner-fill seed: `seed * 2891336453 + 747796405` modulo 2^32.
pub fn corner_mix(seed: u32) -> (r: u32)
    ensures
        r == affine32(seed as int, 2891336453, 747796405),
{
    proof {
        lemma_wrapping_affine(seed, 2891336453u32, 747796405u32);
    }
    seed.wrapping_mul(2891336453u32).wrapping_add(747796405u32)
}

/// Indexed sub-seed: `seed * 1664525 + (index mod 2^32)` modulo 2^32.
/// Used for recursion levels and for Wei tiles.
pub fn indexed_seed(seed: u32, index: usize) -> (r: u32)
    ensures
        r == affine32(seed as int, 1664525, index as int % m32()),
{
    let i: u32 = index as u32;
    proof {
        assert(i == index as int % m32()) by {
            let ix: u64 = index as u64;
            assert(ix as u32 == ix % 0x1_0000_0000) by (bit_vector);
        }
        lemma_add_mod_noop(seed as int * 1664525, i as int, m32());
    }
    seed.wrapping_mul(1664525u32).wrapping_add(i)
}

/// Offset seed: `seed + (index mod 2^32)` modulo 2^32. Used to advance the
/// global seed of the phase-based sampler once per tile.
pub fn offset_seed(seed: u32, index: usize) -> (r: u32)
    ensures
        r == affine32(seed as int, 1, index as int % m32()),
{
    let i: u32 = index as u32;
    proof {
        assert(i == index as int % m32()) by {
            let ix: u64 = index as u64;
            assert(ix as u32 == ix % 0x1_0000_0000) by (bit_vector);
        }
    }
    let r = seed.wrapping_add(i);
    proof {
        if seed as int + i as int >= m32() {
            lemma_mod_sub_multiples_vanish(seed as int + i as int, m32());
            lemma_small_mod((seed as int + i as int - m32()) as nat, m32() as nat);
        } else {
            lemma_small_mod((seed as int + i as int) as nat, m32() as nat);
        }
    }
    r
}

/// Sheared-cell seed: `seed * 1664525 + (index mod 2^32) + 0xDEADBEEF` modulo 2^32.
pub fn sheared_cell_seed(seed: u32, index: usize) -> (r: u32)
    ensures
        r == affine32(seed as int, 1664525, index as int % m32() + 0xDEAD_BEEF),
{
    let i: u32 = index as u32;
    proof {
        assert(i == index as int % m32()) by {
            let ix: u64 = index as u64;
            assert(ix as u32 == ix % 0x1_0000_0000) by (bit_vector);
        }
        let a = seed as int * 1664525;
        lemma_add_mod_noop(a, i as int, m32());
        lemma_add_mod_noop(a + i, 0xDEAD_BEEF, m32());
        lemma_add_mod_noop((a + i) % m32(), 0xDEAD_BEEF, m32());
        lemma_mod_twice(a + i, m32());
    }
    seed.wrapping_mul(1664525u32).wrapping_add(i).wrapping_add(0xDEAD_BEEFu32)
}

/// Per-partition seed: `seed * 6364136223846793005 + index` computed modulo 2^64,
/// then truncated to its low 32 bits.
pub fn partition_seed(seed: u32, index: usize) -> (r: u32)
    ensures
        r == spec_partition_seed(seed, index as int),
{
    let s: u64 = seed as u64;
    let ix: u64 = index as u64;
    let w: u64 = s.wrapping_mul(6_364_136_223_846_793_005u64).wrapping_add(ix);
    let r: u32 = w as u32;
    proof {
        let m64: int = 0x1_0000_0000_0000_0000;
        let a = s as int * partition_mul();
        assert(r == w % 0x1_0000_0000) by (bit_vector)
            requires r == w as u32;
        lemma_add_mod_noop(a, ix as int, m64);
        lemma_mod_twice(a, m64);
        assert(w as int == (a + ix) % m64);
        lemma_mod_mod(a + ix, m32(), 0x1_0000_0000);
    }
    r
}

/// The per-partition seeds of `n` partitions, in partition order.
pub fn partition_seeds(seed: u32, n: usize) -> (r: Vec<u32>)
    ensures
        r.len() == n,
        forall|i: int| 0 <= i < n ==> r@[i] == spec_partition_seed(seed, i),
{
    let mut out: Vec<u32> = Vec::new();
    let mut i: usize = 0;
    while i < n
        invariant
            i <= n,
            out.len() == i,
            forall|j: int| 0 <= j < i ==> out@[j] == spec_partition_seed(seed, j),
        decreases n - i,
    {
        out.push(partition_seed(seed, i));
        i += 1;
    }
    out
}

/// Partitions of one call receive pairwise distinct seeds: two partition
/// indices that are less than 2^32 apart never share a seed.
pub proof fn lemma_partition_seeds_distinct(seed: u32, i: int, j: int)
    requires
        0 <= i < j,
        j - i < m32(),
    ensures
        spec_partition_seed(seed, i) != spec_partition_seed(seed, j),
{
    let a = seed as int * partition_mul();
    if spec_partition_seed(seed, i) == spec_partition_seed(seed, j) {
        lemma_sub_mod_noop(a + j, a + i, m32());
        lemma_mod_self_0(m32());
        assert((j - i) % m32() == 0) by {
            assert((a + j) - (a + i) == j - i);
            assert(((a + j) % m32() - (a + i) % m32()) % m32() == 0);
        }
        lemma_small_mod((j - i) as nat, m32() as nat);
    }
}

/// The scatter-phase mix is a bijection of 32-bit seeds: distinct input seeds
/// derive distinct scatter seeds.
pub proof fn lemma_lcg_mix_injective(a: u32, b: u32)
    requires
        a != b,
    ensures
        spec_lcg_mix(a) != spec_lcg_mix(b),
{
    let m = m32();
    if spec_lcg_mix(a) == spec_lcg_mix(b) {
        let d: int = a as int - b as int;
        let k: int = 1664525;
        let inv: int = 4276115653;
        // (a*k + c) - (b*k + c) == d*k, so d*k is a multiple of 2^32.
        lemma_sub_mod_noop(a as int * k + 1013904223, b as int * k + 1013904223, m);
        lemma_mod_self_0(m);
        assert((a as int * k + 1013904223) - (b as int * k + 1013904223) == d * k) by (nonlinear_arith)
            requires d == a as int - b as int;
        assert((d * k) % m == 0);
        // Multiplying by the inverse of k keeps it a multiple of 2^32.
        lemma_mul_mod_noop_left(d * k, inv, m);
        assert(0int * inv == 0);
        lemma_small_mod(0, m as nat);
        assert((d * k * inv) % m == 0);
        // k * inv == 1 + 1657219 * 2^32, so d * k * inv == d + (d * 1657219) * 2^32.
        assert(d * k * inv == d + (d * 1657219) * m) by (nonlinear_arith)
            requires k == 1664525, inv == 4276115653, m == 0x1_0000_0000;
        lemma_mod_multiples_vanish(d * 1657219, d, m);
        assert(d % m == 0);
        if d > 0 {
            lemma_small_mod(d as nat, m as nat);
        } else if d < 0 {
            lemma_small_mod((d + m) as nat, m as nat);
            lemma_mod_add_multiples_vanish(d, m);
        }
    }
}

/// `(x * mul) mod 2^32 + add`, wrapped, equals `(x * mul + add) mod 2^32`.
proof fn lemma_wrapping_affine(x: u32, mul: u32, add: u32)
    ensures
        x.wrapping_mul(mul).wrapping_add(add) == affine32(x as int, mul as int, add as int),
{
    let p = x.wrapping_mul(mul);
    assert(p == (x as int * mul as int) % m32());
    lemma_add_mod_noop(x as int * mul as int, add as int, m32());
    lemma_small_mod(add as nat, m32() as nat);
    lemma_mod_bound(x as int * mul as int, m32());
    if p + add >= m32() {
        lemma_mod_sub_multiples_vanish(p + add, m32());
        lemma_small_mod((p + add - m32()) as nat, m32() as nat);
    } else {
        lemma_small_mod((p + add) as nat, m32() as nat);
    }
}

} // verus!
