//! Feistel permutation: domain membership, distinctness, inversion.
use r2::feistel;

const KEYS: [u64; 4] = [1, 2, 3, 4];

#[test]
fn precompute_small_domain() {
    let fp = feistel::precompute(64);
    assert_eq!(fp.half_bits, 3);
    assert_eq!(fp.right_mask, 7);
}

#[test]
fn permute_stays_in_domain() {
    let fp = feistel::precompute(64);
    for x in 0..64 {
        let y = feistel::permute(64, x, &KEYS, fp);
        assert!(y < 64);
    }
}

#[test]
fn permute_is_injective_without_walking() {
    // 64 is a power of four, so no cycle-walking happens.
    let fp = feistel::precompute(64);
    let mut seen = vec![false; 64];
    for x in 0..64 {
        let y = feistel::permute(64, x, &KEYS, fp) as usize;
        assert!(!seen[y]);
        seen[y] = true;
    }
}

#[test]
fn permute_is_injective_with_walking() {
    // 128 is not a power of four: the walk kicks in for some values.
    let fp = feistel::precompute(128);
    let mut seen = vec![false; 128];
    for x in 0..128 {
        let y = feistel::permute(128, x, &KEYS, fp) as usize;
        assert!(y < 128);
        assert!(!seen[y]);
        seen[y] = true;
    }
}

#[test]
fn invert_permute_inverts() {
    for &num in &[64u64, 128u64] {
        let fp = feistel::precompute(num);
        for x in 0..num {
            let y = feistel::permute(num, x, &KEYS, fp);
            assert_eq!(feistel::invert_permute(num, y, &KEYS, fp), x);
        }
    }
}

#[test]
fn permute_deterministic() {
    let fp = feistel::precompute(262144);
    let a = feistel::permute(262144, 12345, &KEYS, fp);
    let b = feistel::permute(262144, 12345, &KEYS, fp);
    assert_eq!(a, b);
    assert!(a < 262144);
}
