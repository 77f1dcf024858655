//! Canonical field encoding: masking, comparison, addition mod `p`.
use r2::error::Error;
use r2::field;

fn le32(low: u8) -> Vec<u8> {
    let mut v = vec![0u8; 32];
    v[0] = low;
    v
}

#[test]
fn small_sum_exact() {
    let a = le32(1);
    let b = le32(2);
    let r = field::add_mod_p(&a, &b);
    assert_eq!(r, le32(3));
}

#[test]
fn sum_wraps_exactly_at_p() {
    // p is odd with low byte 1, so p - 1 is p with its low byte cleared.
    let mut p_minus_one = field::p_bytes();
    p_minus_one[0] = 0;
    let one = le32(1);
    let r = field::add_mod_p(&p_minus_one, &one);
    assert_eq!(r, vec![0u8; 32]);
}

#[test]
fn mask_clears_top_two_bits() {
    let all = vec![0xffu8; 32];
    let m = field::fr_safe(&all);
    assert_eq!(m[31], 0x3f);
    assert_eq!(&m[0..31], &all[0..31]);
}

#[test]
fn ge_p_splits_at_p() {
    let p = field::p_bytes();
    assert!(field::ge_p(&p));
    let mut below = field::p_bytes();
    below[0] = 0;
    assert!(!field::ge_p(&below));
    let mut above = field::p_bytes();
    above[0] = 2;
    assert!(field::ge_p(&above));
}

#[test]
fn fr_check_accepts_only_canonical() {
    let p = field::p_bytes();
    assert_eq!(field::fr_check(&p).unwrap_err(), Error::Domain);
    let mut below = field::p_bytes();
    below[0] = 0;
    assert_eq!(field::fr_check(&below).unwrap(), below);
    assert_eq!(field::fr_check(&vec![0u8; 32]).unwrap(), vec![0u8; 32]);
}

#[test]
fn masked_values_commute_under_addition() {
    let mut a = vec![0u8; 32];
    let mut b = vec![0u8; 32];
    for i in 0..32 {
        a[i] = i as u8;
        b[i] = (31 - i) as u8;
    }
    let am = field::fr_safe(&a);
    let bm = field::fr_safe(&b);
    assert_eq!(field::add_mod_p(&am, &bm), field::add_mod_p(&bm, &am));
}
