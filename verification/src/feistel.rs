//! Balanced Feistel permutation over `[0, domain)`.
//!
//! Three rounds of a keyed quadratic mix give a permutation of the padded
//! domain `[0, 4^k)`; cycle-walking (re-encoding any value that lands
//! outside) restricts it to `[0, domain)`.  The expander edges of the graph
//! are derived from this permutation, so both directions of every edge can
//! be recomputed without materialising the graph.
use vstd::prelude::*;

use vstd::arithmetic::div_mod::lemma_fundamental_div_mod_converse;
use vstd::arithmetic::power2::lemma_pow2_adds;
use vstd::arithmetic::power2::lemma_pow2_strictly_increases;
use vstd::arithmetic::power2::pow2;

verus! {

/// Element of the permutation domain.
pub type Index = u64;

/// Number of Feistel rounds applied by `permute`.
pub const FEISTEL_ROUNDS: usize = 3;

/// Half-width and mask of the padded domain `[0, 4^half_bits)`.
#[derive(Clone, Copy, Debug, PartialEq, Eq, Structural)]
pub struct FeistelPrecomputed {
    pub half_bits: u64,
    pub right_mask: u64,
}

/// The precomputed values describe a padded domain of `4^half_bits`.
pub open spec fn fp_ok(fp: FeistelPrecomputed) -> bool {
    &&& 1 <= fp.half_bits <= 31
    &&& fp.right_mask + 1 == pow2(fp.half_bits as nat)
    &&& (fp.right_mask & (fp.right_mask + 1) as u64) == 0
}

/// The keyed round mix: a quadratic map of the right half, reduced to the
/// half width.
pub open spec fn mix_spec(right: u64, key: u64, h: nat) -> u64 {
    (((right * right + key) as int) % (pow2(h) as int)) as u64
}

/// One application of the three-round Feistel network.
pub open spec fn encode_spec(index: u64, k0: u64, k1: u64, k2: u64, h: nat) -> u64 {
    let th = pow2(h) as int;
    let l0 = ((index as int) / th) as u64;
    let r0 = ((index as int) % th) as u64;
    let l1 = r0;
    let r1 = l0 ^ mix_spec(r0, k0, h);
    let l2 = r1;
    let r2 = l1 ^ mix_spec(r1, k1, h);
    let l3 = r2;
    let r3 = l2 ^ mix_spec(r2, k2, h);
    (l3 * th + r3) as u64
}

/// The inverse of `encode_spec`, with the key schedule unwound backwards.
pub open spec fn decode_spec(index: u64, k0: u64, k1: u64, k2: u64, h: nat) -> u64 {
    let th = pow2(h) as int;
    let l3 = ((index as int) / th) as u64;
    let r3 = ((index as int) % th) as u64;
    let r2 = l3;
    let l2 = r3 ^ mix_spec(r2, k2, h);
    let r1 = l2;
    let l1 = r2 ^ mix_spec(r1, k1, h);
    let r0 = l1;
    let l0 = r1 ^ mix_spec(r0, k0, h);
    (l0 * th + r0) as u64
}

/// Cycle-walking: re-encode until the value falls below `num`.  The fuel
/// covers the whole padded domain; if it ever ran out the walk would give
/// up and answer 0, which is still inside the domain.
pub open spec fn walk_encode_spec(num: u64, u: u64, k0: u64, k1: u64, k2: u64, h: nat, fuel: nat) -> u64
    decreases fuel,
{
    if u < num {
        u
    } else if fuel == 0 {
        0
    } else {
        walk_encode_spec(num, encode_spec(u, k0, k1, k2, h), k0, k1, k2, h, (fuel - 1) as nat)
    }
}

/// Cycle-walking along the inverse permutation.
pub open spec fn walk_decode_spec(num: u64, u: u64, k0: u64, k1: u64, k2: u64, h: nat, fuel: nat) -> u64
    decreases fuel,
{
    if u < num {
        u
    } else if fuel == 0 {
        0
    } else {
        walk_decode_spec(num, decode_spec(u, k0, k1, k2, h), k0, k1, k2, h, (fuel - 1) as nat)
    }
}

/// What `permute` returns.
pub open spec fn permute_spec(num: u64, index: u64, k0: u64, k1: u64, k2: u64, h: nat) -> u64 {
    walk_encode_spec(num, encode_spec(index, k0, k1, k2, h), k0, k1, k2, h, pow2(2 * h))
}

/// What `invert_permute` returns.
pub open spec fn invert_permute_spec(num: u64, index: u64, k0: u64, k1: u64, k2: u64, h: nat) -> u64 {
    walk_decode_spec(num, decode_spec(index, k0, k1, k2, h), k0, k1, k2, h, pow2(2 * h))
}

/// The smallest half width whose padded domain covers `num`, searched
/// upward from `k`.
pub open spec fn half_bits_rec(num: u64, k: nat) -> nat
    decreases 32 - k,
{
    if k >= 31 {
        31
    } else if pow2(2 * k) >= num {
        k
    } else {
        half_bits_rec(num, k + 1)
    }
}

/// The half width `precompute` picks for a domain of `num` elements.
pub open spec fn half_bits_for(num: u64) -> nat {
    half_bits_rec(num, 1)
}

/// The keys the round mix accepts without overflowing.
pub open spec fn keys_ok(keys: Seq<u64>) -> bool {
    &&& keys.len() >= FEISTEL_ROUNDS
    &&& forall|i: int| 0 <= i < keys.len() ==> keys[i] < 0x1_0000_0000
}

/// Find the smallest power of four that covers the domain.
pub fn precompute(num_elements: Index) -> (fp: FeistelPrecomputed)
    requires
        2 <= num_elements <= 0x4000_0000_0000_0000,
    ensures
        fp_ok(fp),
        num_elements <= pow2(2 * fp.half_bits as nat),
        fp.half_bits as nat == half_bits_for(num_elements),
{
    let mut half: u64 = 2;
    let mut log4: u64 = 1;
    let mut padded: u64 = 4;
    proof {
        vstd::arithmetic::power2::lemma2_to64();
        assert(2u64 & 1u64 == 0) by (bit_vector);
    }
    while padded < num_elements
        invariant
            2 <= num_elements <= 0x4000_0000_0000_0000,
            1 <= log4 <= 31,
            half == pow2(log4 as nat),
            2 <= half <= 0x8000_0000,
            padded == half * half,
            padded == pow2(2 * log4 as nat),
            (half & (half - 1) as u64) == 0,
            half_bits_for(num_elements) == half_bits_rec(num_elements, log4 as nat),
        decreases 31 - log4,
    {
        proof {
            if log4 >= 31 {
                vstd::arithmetic::power2::lemma2_to64();
                vstd::arithmetic::power2::lemma2_to64_rest();
                lemma_pow2_adds(31, 31);
                assert(padded == pow2(62)) by (nonlinear_arith)
                    requires
                        padded == half * half,
                        half == pow2(log4 as nat),
                        log4 == 31,
                        pow2(62) == pow2(31) * pow2(31),
                ;
                assert(false);
            }
            let h2: u64 = half;
            assert((h2 & (h2 - 1) as u64) == 0 && 2 <= h2 <= 0x4000_0000 ==> (((2 * h2) as u64) & (
            (2 * h2 - 1) as u64)) == 0) by (bit_vector);
            assert(pow2((log4 + 1) as nat) == 2 * pow2(log4 as nat)) by {
                lemma_pow2_adds(1, log4 as nat);
                vstd::arithmetic::power2::lemma2_to64();
            }
            if log4 + 1 < 31 {
                lemma_pow2_strictly_increases((log4 + 1) as nat, 31);
            }
            vstd::arithmetic::power2::lemma2_to64();
            assert(half <= 0x4000_0000);
            assert(4 * padded == (2 * half) * (2 * half)) by (nonlinear_arith)
                requires
                    padded == half * half,
            ;
            assert(padded <= 0x1000_0000_0000_0000) by (nonlinear_arith)
                requires
                    padded == half * half,
                    half <= 0x4000_0000,
            ;
            lemma_pow2_adds(2 * log4 as nat, 2);
            assert(half_bits_rec(num_elements, log4 as nat) == half_bits_rec(
                num_elements,
                (log4 + 1) as nat,
            ));
        }
        half = half * 2;
        log4 = log4 + 1;
        padded = padded * 4;
    }
    proof {
        assert(half_bits_rec(num_elements, log4 as nat) == log4 as nat);
    }
    let right_mask = half - 1;
    proof {
        let hh: u64 = half;
        assert((hh & (hh - 1) as u64) == 0 && hh >= 2 ==> (((hh - 1) as u64) & hh) == 0)
            by (bit_vector);
        lemma_pow2_adds(log4 as nat, log4 as nat);
        assert(half * half == pow2(2 * log4 as nat)) by (nonlinear_arith)
            requires
                half == pow2(log4 as nat),
                pow2(2 * log4 as nat) == pow2(log4 as nat) * pow2(log4 as nat),
        ;
    }
    FeistelPrecomputed { half_bits: log4, right_mask }
}

/// Concrete bounds that `fp_ok` puts on the mask and the half width.
proof fn lemma_fp_bounds(fp: FeistelPrecomputed)
    requires
        fp_ok(fp),
    ensures
        2 <= fp.right_mask + 1 <= 0x8000_0000,
{
    vstd::arithmetic::power2::lemma2_to64();
    if fp.half_bits < 31 {
        lemma_pow2_strictly_increases(fp.half_bits as nat, 31);
    }
    if fp.half_bits > 1 {
        lemma_pow2_strictly_increases(1, fp.half_bits as nat);
    }
}

/// The quadratic mix of a bounded half never overflows.
proof fn lemma_mix_no_overflow(r: u64, k: u64)
    requires
        r < 0x8000_0000,
        k < 0x1_0000_0000,
    ensures
        r * r + k < 0x8000_0000_0000_0000,
{
    assert(r * r <= (0x8000_0000 - 1) * (0x8000_0000 - 1)) by (nonlinear_arith)
        requires
            r < 0x8000_0000,
    ;
}

/// XOR of two values below an all-ones mask stays below it.
proof fn lemma_xor_bounded(x: u64, y: u64, mask: u64)
    requires
        x <= mask,
        y <= mask,
        mask < 0x8000_0000,
        (mask & (mask + 1) as u64) == 0,
    ensures
        (x ^ y) <= mask,
{
    assert(x <= mask && y <= mask && mask < 0x8000_0000 && (mask & (mask + 1) as u64) == 0 ==> (x
        ^ y) <= mask) by (bit_vector);
}

/// One Feistel application in executable form.
fn encode(index: Index, k0: u64, k1: u64, k2: u64, fp: FeistelPrecomputed) -> (r: Index)
    requires
        fp_ok(fp),
        index < pow2(2 * fp.half_bits as nat),
        k0 < 0x1_0000_0000,
        k1 < 0x1_0000_0000,
        k2 < 0x1_0000_0000,
    ensures
        r == encode_spec(index, k0, k1, k2, fp.half_bits as nat),
        r < pow2(2 * fp.half_bits as nat),
{
    let ghost h = fp.half_bits as nat;
    proof {
        lemma_fp_bounds(fp);
    }
    let two_h: u64 = fp.right_mask + 1;
    proof {
        lemma_pow2_adds(h, h);
        assert(index < two_h * two_h) by (nonlinear_arith)
            requires
                index < pow2(2 * fp.half_bits as nat),
                pow2(2 * fp.half_bits as nat) == pow2(fp.half_bits as nat) * pow2(
                    fp.half_bits as nat,
                ),
                two_h == pow2(fp.half_bits as nat),
        ;
        assert(index / two_h < two_h) by (nonlinear_arith)
            requires
                two_h >= 1,
                index < two_h * two_h,
        ;
    }
    let l0: u64 = index / two_h;
    let r0: u64 = index % two_h;
    proof {
        lemma_mix_no_overflow(r0, k0);
    }
    let m0: u64 = (r0 * r0 + k0) % two_h;
    let r1: u64 = l0 ^ m0;
    proof {
        lemma_xor_bounded(l0, m0, fp.right_mask);
    }
    proof {
        lemma_mix_no_overflow(r1, k1);
    }
    let m1: u64 = (r1 * r1 + k1) % two_h;
    let r2: u64 = r0 ^ m1;
    proof {
        lemma_xor_bounded(r0, m1, fp.right_mask);
    }
    proof {
        lemma_mix_no_overflow(r2, k2);
    }
    let m2: u64 = (r2 * r2 + k2) % two_h;
    let r3: u64 = r1 ^ m2;
    proof {
        lemma_xor_bounded(r1, m2, fp.right_mask);
    }
    proof {
        assert(r2 * two_h + r3 < two_h * two_h && two_h * two_h <= 0x4000_0000_0000_0000)
            by (nonlinear_arith)
            requires
                r2 < two_h,
                r3 < two_h,
                1 <= two_h <= 0x8000_0000,
        ;
    }
    let out: u64 = r2 * two_h + r3;
    out
}

/// One inverse Feistel application in executable form.
fn decode(index: Index, k0: u64, k1: u64, k2: u64, fp: FeistelPrecomputed) -> (r: Index)
    requires
        fp_ok(fp),
        index < pow2(2 * fp.half_bits as nat),
        k0 < 0x1_0000_0000,
        k1 < 0x1_0000_0000,
        k2 < 0x1_0000_0000,
    ensures
        r == decode_spec(index, k0, k1, k2, fp.half_bits as nat),
        r < pow2(2 * fp.half_bits as nat),
{
    let ghost h = fp.half_bits as nat;
    proof {
        lemma_fp_bounds(fp);
    }
    let two_h: u64 = fp.right_mask + 1;
    proof {
        lemma_pow2_adds(h, h);
        assert(index < two_h * two_h) by (nonlinear_arith)
            requires
                index < pow2(2 * fp.half_bits as nat),
                pow2(2 * fp.half_bits as nat) == pow2(fp.half_bits as nat) * pow2(
                    fp.half_bits as nat,
                ),
                two_h == pow2(fp.half_bits as nat),
        ;
        assert(index / two_h < two_h) by (nonlinear_arith)
            requires
                two_h >= 1,
                index < two_h * two_h,
        ;
    }
    let l3: u64 = index / two_h;
    let r3: u64 = index % two_h;
    proof {
        lemma_mix_no_overflow(l3, k2);
    }
    let m2: u64 = (l3 * l3 + k2) % two_h;
    let l2: u64 = r3 ^ m2;
    proof {
        lemma_xor_bounded(r3, m2, fp.right_mask);
    }
    proof {
        lemma_mix_no_overflow(l2, k1);
    }
    let m1: u64 = (l2 * l2 + k1) % two_h;
    let l1: u64 = l3 ^ m1;
    proof {
        lemma_xor_bounded(l3, m1, fp.right_mask);
    }
    proof {
        lemma_mix_no_overflow(l1, k0);
    }
    let m0: u64 = (l1 * l1 + k0) % two_h;
    let l0: u64 = l2 ^ m0;
    proof {
        lemma_xor_bounded(l2, m0, fp.right_mask);
    }
    proof {
        assert(l0 * two_h + l1 < two_h * two_h && two_h * two_h <= 0x4000_0000_0000_0000)
            by (nonlinear_arith)
            requires
                l0 < two_h,
                l1 < two_h,
                1 <= two_h <= 0x8000_0000,
        ;
    }
    let out: u64 = l0 * two_h + l1;
    out
}

/// Decoding inverts encoding on the padded domain.
pub proof fn lemma_decode_encode(index: u64, k0: u64, k1: u64, k2: u64, h: nat)
    requires
        1 <= h <= 31,
        index < pow2(2 * h),
    ensures
        decode_spec(encode_spec(index, k0, k1, k2, h), k0, k1, k2, h) == index,
{
    let th = pow2(h) as int;
    lemma_pow2_adds(h, h);
    assert(th >= 2) by {
        lemma_pow2_strictly_increases(0, h);
        vstd::arithmetic::power2::lemma2_to64();
    }
    let l0 = ((index as int) / th) as u64;
    let r0 = ((index as int) % th) as u64;
    assert(l0 < th) by (nonlinear_arith)
        requires
            th >= 1,
            index < th * th,
            l0 == ((index as int) / th) as u64,
            index >= 0,
    ;
    let l1 = r0;
    let r1 = l0 ^ mix_spec(r0, k0, h);
    let l2 = r1;
    let r2 = l1 ^ mix_spec(r1, k1, h);
    let l3 = r2;
    let r3 = l2 ^ mix_spec(r2, k2, h);
    let y = (l3 * th + r3) as u64;
    assert(mix_spec(r0, k0, h) < th);
    assert(mix_spec(r1, k1, h) < th);
    assert(mix_spec(r2, k2, h) < th);
    assert(forall|a: u64, b: u64| a < 0x1_0000_0000_0000_0000 && b < 0x1_0000_0000_0000_0000
        ==> ((a ^ b) ^ b) == a) by (bit_vector);
    // The joined value splits back into the two halves.
    assert(r3 < th && l3 < th) by {
        let mask: u64 = (th - 1) as u64;
        assert((mask & (mask + 1) as u64) == 0 ==> true);
        lemma_xor_bound_pow2(l0, mix_spec(r0, k0, h), h);
        lemma_xor_bound_pow2(l1, mix_spec(r1, k1, h), h);
        lemma_xor_bound_pow2(l2, mix_spec(r2, k2, h), h);
    }
    assert(th <= 0x8000_0000) by {
        vstd::arithmetic::power2::lemma2_to64();
        if h < 31 {
            lemma_pow2_strictly_increases(h, 31);
        }
    }
    assert(l3 * th + r3 < th * th) by (nonlinear_arith)
        requires
            l3 < th,
            r3 < th,
            th >= 1,
    ;
    assert(th * th <= 0x4000_0000_0000_0000) by (nonlinear_arith)
        requires
            1 <= th <= 0x8000_0000,
    ;
    assert(y == l3 * th + r3);
    assert((l3 * th + r3) / th == l3 && (l3 * th + r3) % th == r3) by {
        lemma_fundamental_div_mod_converse(l3 * th + r3, th, l3 as int, r3 as int);
    }
    let yl = ((y as int) / th) as u64;
    let yr = ((y as int) % th) as u64;
    assert(yl == l3 && yr == r3);
    // Unwind the three rounds.
    assert((r2 ^ mix_spec(r2, k2, h)) ^ mix_spec(r2, k2, h) == r2);
    assert(r3 ^ mix_spec(l3, k2, h) == l2) by {
        assert(mix_spec(l3, k2, h) == mix_spec(r2, k2, h));
        assert((l2 ^ mix_spec(r2, k2, h)) ^ mix_spec(r2, k2, h) == l2);
    }
    assert(r2 ^ mix_spec(l2, k1, h) == l1) by {
        assert(mix_spec(l2, k1, h) == mix_spec(r1, k1, h));
        assert((l1 ^ mix_spec(r1, k1, h)) ^ mix_spec(r1, k1, h) == l1);
    }
    assert(r1 ^ mix_spec(l1, k0, h) == l0) by {
        assert(mix_spec(l1, k0, h) == mix_spec(r0, k0, h));
        assert((l0 ^ mix_spec(r0, k0, h)) ^ mix_spec(r0, k0, h) == l0);
    }
    assert((l0 * th + r0) == index) by {
        vstd::arithmetic::div_mod::lemma_fundamental_div_mod(index as int, th);
    }
}

/// XOR of two values below `2^h` stays below `2^h`.
proof fn lemma_xor_bound_pow2(x: u64, y: u64, h: nat)
    requires
        1 <= h <= 31,
        x < pow2(h),
        y < pow2(h),
    ensures
        (x ^ y) < pow2(h),
{
    let hh: u64 = h as u64;
    assert(pow2(h) == (1u64 << hh)) by {
        vstd::bits::lemma_u64_pow2_no_overflow(h);
        vstd::bits::lemma_u64_shl_is_mul(1u64, hh);
    }
    assert(x < (1u64 << hh) && y < (1u64 << hh) && hh <= 31 ==> (x ^ y) < (1u64 << hh))
        by (bit_vector);
}

/// Walk the permutation forward until the value re-enters the domain.
pub fn permute(
    num_elements: Index,
    index: Index,
    keys: &[u64],
    precomputed: FeistelPrecomputed,
) -> (r: Index)
    requires
        fp_ok(precomputed),
        num_elements <= pow2(2 * precomputed.half_bits as nat),
        2 <= num_elements,
        index < num_elements,
        keys_ok(keys@),
    ensures
        r == permute_spec(
            num_elements,
            index,
            keys@[0],
            keys@[1],
            keys@[2],
            precomputed.half_bits as nat,
        ),
        r < num_elements,
{
    let ghost h = precomputed.half_bits as nat;
    let k0 = keys[0];
    let k1 = keys[1];
    let k2 = keys[2];
    proof {
        lemma_fp_bounds(precomputed);
    }
    let two_h: u64 = precomputed.right_mask + 1;
    proof {
        lemma_pow2_adds(h, h);
        assert(two_h * two_h <= 0x8000_0000 * 0x8000_0000) by (nonlinear_arith)
            requires
                two_h <= 0x8000_0000,
        ;
        assert(two_h * two_h == pow2(2 * h)) by (nonlinear_arith)
            requires
                two_h == pow2(h),
                pow2(2 * h) == pow2(h) * pow2(h),
        ;
    }
    let padded: u64 = two_h * two_h;
    let mut u = encode(index, k0, k1, k2, precomputed);
    let mut fuel: u64 = padded;
    while u >= num_elements && fuel > 0
        invariant
            fp_ok(precomputed),
            h == precomputed.half_bits as nat,
            num_elements <= pow2(2 * h),
            2 <= num_elements,
            k0 < 0x1_0000_0000,
            k1 < 0x1_0000_0000,
            k2 < 0x1_0000_0000,
            u < pow2(2 * h),
            walk_encode_spec(num_elements, u, k0, k1, k2, h, fuel as nat) == permute_spec(
                num_elements,
                index,
                k0,
                k1,
                k2,
                h,
            ),
        decreases fuel,
    {
        u = encode(u, k0, k1, k2, precomputed);
        fuel = fuel - 1;
    }
    if u >= num_elements {
        u = 0;
    }
    u
}

/// Walk the permutation backward: the inverse of `permute` on its image.
pub fn invert_permute(
    num_elements: Index,
    index: Index,
    keys: &[u64],
    precomputed: FeistelPrecomputed,
) -> (r: Index)
    requires
        fp_ok(precomputed),
        num_elements <= pow2(2 * precomputed.half_bits as nat),
        2 <= num_elements,
        index < num_elements,
        keys_ok(keys@),
    ensures
        r == invert_permute_spec(
            num_elements,
            index,
            keys@[0],
            keys@[1],
            keys@[2],
            precomputed.half_bits as nat,
        ),
        r < num_elements,
{
    let ghost h = precomputed.half_bits as nat;
    let k0 = keys[0];
    let k1 = keys[1];
    let k2 = keys[2];
    proof {
        lemma_fp_bounds(precomputed);
    }
    let two_h: u64 = precomputed.right_mask + 1;
    proof {
        lemma_pow2_adds(h, h);
        assert(two_h * two_h <= 0x8000_0000 * 0x8000_0000) by (nonlinear_arith)
            requires
                two_h <= 0x8000_0000,
        ;
        assert(two_h * two_h == pow2(2 * h)) by (nonlinear_arith)
            requires
                two_h == pow2(h),
                pow2(2 * h) == pow2(h) * pow2(h),
        ;
    }
    let padded: u64 = two_h * two_h;
    let mut u = decode(index, k0, k1, k2, precomputed);
    let mut fuel: u64 = padded;
    while u >= num_elements && fuel > 0
        invariant
            fp_ok(precomputed),
            h == precomputed.half_bits as nat,
            num_elements <= pow2(2 * h),
            2 <= num_elements,
            k0 < 0x1_0000_0000,
            k1 < 0x1_0000_0000,
            k2 < 0x1_0000_0000,
            u < pow2(2 * h),
            walk_decode_spec(num_elements, u, k0, k1, k2, h, fuel as nat) == invert_permute_spec(
                num_elements,
                index,
                k0,
                k1,
                k2,
                h,
            ),
        decreases fuel,
    {
        u = decode(u, k0, k1, k2, precomputed);
        fuel = fuel - 1;
    }
    if u >= num_elements {
        u = 0;
    }
    u
}


/// One encoding application stays in the padded domain.
pub proof fn lemma_encode_bound(index: u64, k0: u64, k1: u64, k2: u64, h: nat)
    requires
        1 <= h <= 31,
        index < pow2(2 * h),
    ensures
        encode_spec(index, k0, k1, k2, h) < pow2(2 * h),
{
    let th = pow2(h) as int;
    lemma_pow2_adds(h, h);
    assert(th >= 2) by {
        lemma_pow2_strictly_increases(0, h);
        vstd::arithmetic::power2::lemma2_to64();
    }
    let l0 = ((index as int) / th) as u64;
    let r0 = ((index as int) % th) as u64;
    assert(l0 < th) by (nonlinear_arith)
        requires
            th >= 1,
            index < th * th,
            l0 == ((index as int) / th) as u64,
            index >= 0,
    ;
    let l1 = r0;
    let r1 = l0 ^ mix_spec(r0, k0, h);
    let l2 = r1;
    let r2 = l1 ^ mix_spec(r1, k1, h);
    let l3 = r2;
    let r3 = l2 ^ mix_spec(r2, k2, h);
    assert(mix_spec(r0, k0, h) < th);
    assert(mix_spec(r1, k1, h) < th);
    assert(mix_spec(r2, k2, h) < th);
    lemma_xor_bound_pow2(l0, mix_spec(r0, k0, h), h);
    lemma_xor_bound_pow2(l1, mix_spec(r1, k1, h), h);
    lemma_xor_bound_pow2(l2, mix_spec(r2, k2, h), h);
    assert(l3 * th + r3 < th * th) by (nonlinear_arith)
        requires
            l3 < th,
            r3 < th,
            th >= 1,
    ;
    assert(th <= 0x8000_0000) by {
        vstd::arithmetic::power2::lemma2_to64();
        if h < 31 {
            lemma_pow2_strictly_increases(h, 31);
        }
    }
    assert(th * th <= 0x4000_0000_0000_0000) by (nonlinear_arith)
        requires
            1 <= th <= 0x8000_0000,
    ;
}

/// The `i`-th iterate of the encoding.
pub open spec fn iter_encode(x: u64, k0: u64, k1: u64, k2: u64, h: nat, i: nat) -> u64
    decreases i,
{
    if i == 0 {
        x
    } else {
        encode_spec(iter_encode(x, k0, k1, k2, h, (i - 1) as nat), k0, k1, k2, h)
    }
}

/// Every iterate stays in the padded domain.
proof fn lemma_iter_encode_bound(x: u64, k0: u64, k1: u64, k2: u64, h: nat, i: nat)
    requires
        1 <= h <= 31,
        x < pow2(2 * h),
    ensures
        iter_encode(x, k0, k1, k2, h, i) < pow2(2 * h),
    decreases i,
{
    if i > 0 {
        lemma_iter_encode_bound(x, k0, k1, k2, h, (i - 1) as nat);
        lemma_encode_bound(iter_encode(x, k0, k1, k2, h, (i - 1) as nat), k0, k1, k2, h);
    }
}

/// Iterating from the encoding of a value drops one step.
proof fn lemma_iter_encode_shift(x: u64, k0: u64, k1: u64, k2: u64, h: nat, i: nat)
    requires
        i >= 1,
    ensures
        iter_encode(x, k0, k1, k2, h, i) == iter_encode(
            encode_spec(x, k0, k1, k2, h),
            k0,
            k1,
            k2,
            h,
            (i - 1) as nat,
        ),
    decreases i,
{
    if i == 1 {
        assert(iter_encode(x, k0, k1, k2, h, 1) == encode_spec(
            iter_encode(x, k0, k1, k2, h, 0),
            k0,
            k1,
            k2,
            h,
        ));
        assert(iter_encode(x, k0, k1, k2, h, 0) == x);
        assert(iter_encode(encode_spec(x, k0, k1, k2, h), k0, k1, k2, h, 0) == encode_spec(
            x,
            k0,
            k1,
            k2,
            h,
        ));
    } else {
        lemma_iter_encode_shift(x, k0, k1, k2, h, (i - 1) as nat);
    }
}

/// Two equal iterates reflect back to the start: the encoding is
/// injective, having `decode_spec` as an inverse.
proof fn lemma_iter_encode_cancel(x: u64, k0: u64, k1: u64, k2: u64, h: nat, i: nat, j: nat)
    requires
        1 <= h <= 31,
        x < pow2(2 * h),
        i <= j,
        iter_encode(x, k0, k1, k2, h, i) == iter_encode(x, k0, k1, k2, h, j),
    ensures
        x == iter_encode(x, k0, k1, k2, h, (j - i) as nat),
    decreases i,
{
    if i == 0 {
    } else {
        lemma_iter_encode_bound(x, k0, k1, k2, h, (i - 1) as nat);
        lemma_iter_encode_bound(x, k0, k1, k2, h, (j - 1) as nat);
        lemma_decode_encode(iter_encode(x, k0, k1, k2, h, (i - 1) as nat), k0, k1, k2, h);
        lemma_decode_encode(iter_encode(x, k0, k1, k2, h, (j - 1) as nat), k0, k1, k2, h);
        assert(iter_encode(x, k0, k1, k2, h, (i - 1) as nat) == iter_encode(
            x,
            k0,
            k1,
            k2,
            h,
            (j - 1) as nat,
        ));
        lemma_iter_encode_cancel(x, k0, k1, k2, h, (i - 1) as nat, (j - 1) as nat);
    }
}

/// A sequence of more than `n` values below `n` repeats somewhere.
proof fn lemma_pigeonhole(s: Seq<u64>, n: int)
    requires
        n >= 0,
        s.len() > n,
        forall|i: int| 0 <= i < s.len() ==> (#[trigger] s[i]) < n,
    ensures
        exists|i: int, j: int| 0 <= i < j < s.len() && s[i] == s[j],
{
    broadcast use vstd::set::group_set_axioms;

    if !(exists|i: int, j: int| 0 <= i < j < s.len() && s[i] == s[j]) {
        let si = Seq::new(s.len(), |i: int| s[i] as int);
        assert(si.no_duplicates()) by {
            assert forall|i: int, j: int|
                0 <= i < si.len() && 0 <= j < si.len() && i != j implies si[i] != si[j] by {
                if i < j {
                    assert(!(s[i] == s[j]));
                } else {
                    assert(!(s[j] == s[i]));
                }
            }
        }
        si.unique_seq_to_set();
        let range = vstd::set_lib::set_int_range(0, n);
        vstd::set_lib::lemma_int_range(0, n);
        assert(si.to_set().subset_of(range)) by {
            assert forall|y: int| si.to_set().contains(y) implies range.contains(y) by {
                let i = choose|i: int| 0 <= i < si.len() && si[i] == y;
                assert(s[i] < n);
            }
        }
        vstd::set_lib::lemma_len_subset(si.to_set(), range);
        assert(false);
    }
}

/// Starting inside the domain, some iterate within the padded count of
/// steps lands back inside the domain: the cycle walk terminates.
proof fn lemma_orbit_hits(num: u64, index: u64, k0: u64, k1: u64, k2: u64, h: nat)
    requires
        1 <= h <= 31,
        2 <= num <= pow2(2 * h),
        index < num,
    ensures
        exists|k: int|
            1 <= k <= pow2(2 * h) && #[trigger] iter_encode(index, k0, k1, k2, h, k as nat)
                < num,
{
    let p = pow2(2 * h) as int;
    let s = Seq::new((p + 1) as nat, |i: int| iter_encode(index, k0, k1, k2, h, i as nat));
    assert forall|i: int| 0 <= i < s.len() implies (#[trigger] s[i]) < p by {
        lemma_iter_encode_bound(index, k0, k1, k2, h, i as nat);
    }
    lemma_pigeonhole(s, p);
    let (i, j): (int, int) = choose|i: int, j: int| 0 <= i < j < s.len() && s[i] == s[j];
    lemma_iter_encode_cancel(index, k0, k1, k2, h, i as nat, j as nat);
    let k = j - i;
    assert(1 <= k <= p);
    assert(iter_encode(index, k0, k1, k2, h, k as nat) == index);
    assert(iter_encode(index, k0, k1, k2, h, k as nat) < num);
}

/// When some iterate within the fuel lands in the domain, the walk
/// answers an iterate in the domain: the give-up branch is never taken.
proof fn lemma_walk_hit(num: u64, u: u64, k0: u64, k1: u64, k2: u64, h: nat, fuel: nat, t: nat)
    requires
        1 <= h <= 31,
        num <= pow2(2 * h),
        u < pow2(2 * h),
        t <= fuel,
        iter_encode(u, k0, k1, k2, h, t) < num,
    ensures
        walk_encode_spec(num, u, k0, k1, k2, h, fuel) < num,
        exists|j: nat|
            j <= t && walk_encode_spec(num, u, k0, k1, k2, h, fuel) == #[trigger] iter_encode(
                u,
                k0,
                k1,
                k2,
                h,
                j,
            ) && (forall|s: nat| s < j ==> #[trigger] iter_encode(u, k0, k1, k2, h, s) >= num),
    decreases t,
{
    if u < num {
        assert(walk_encode_spec(num, u, k0, k1, k2, h, fuel) == u);
        let z: nat = 0;
        assert(iter_encode(u, k0, k1, k2, h, z) == u);
        assert(z <= t && walk_encode_spec(num, u, k0, k1, k2, h, fuel) == iter_encode(
            u,
            k0,
            k1,
            k2,
            h,
            z,
        ) && (forall|s: nat| s < z ==> #[trigger] iter_encode(u, k0, k1, k2, h, s) >= num));
    } else {
        assert(t >= 1) by {
            assert(iter_encode(u, k0, k1, k2, h, 0) == u);
        }
        let u2 = encode_spec(u, k0, k1, k2, h);
        lemma_encode_bound(u, k0, k1, k2, h);
        lemma_iter_encode_shift(u, k0, k1, k2, h, t);
        lemma_walk_hit(num, u2, k0, k1, k2, h, (fuel - 1) as nat, (t - 1) as nat);
        let j2 = choose|j: nat|
            j <= t - 1 && walk_encode_spec(num, u2, k0, k1, k2, h, (fuel - 1) as nat)
                == #[trigger] iter_encode(u2, k0, k1, k2, h, j) && (forall|s: nat|
                s < j ==> #[trigger] iter_encode(u2, k0, k1, k2, h, s) >= num);
        lemma_iter_encode_shift(u, k0, k1, k2, h, (j2 + 1) as nat);
        let w: nat = (j2 + 1) as nat;
        assert(walk_encode_spec(num, u, k0, k1, k2, h, fuel) == iter_encode(
            u,
            k0,
            k1,
            k2,
            h,
            w,
        ));
        assert(w <= t);
        assert forall|s: nat| s < w implies #[trigger] iter_encode(u, k0, k1, k2, h, s)
            >= num by {
            if s == 0 {
                assert(iter_encode(u, k0, k1, k2, h, 0) == u);
            } else {
                lemma_iter_encode_shift(u, k0, k1, k2, h, s);
                assert(iter_encode(u2, k0, k1, k2, h, (s - 1) as nat) >= num);
            }
        }
    }
}

/// The permutation is total on its domain: it answers a genuine iterate
/// of the encoding inside the domain, never the walk's give-up value.
pub proof fn lemma_permute_is_iterate(num: u64, index: u64, k0: u64, k1: u64, k2: u64, h: nat)
    requires
        1 <= h <= 31,
        2 <= num <= pow2(2 * h),
        index < num,
    ensures
        permute_spec(num, index, k0, k1, k2, h) < num,
        exists|k: int|
            1 <= k <= pow2(2 * h) && #[trigger] iter_encode(index, k0, k1, k2, h, k as nat)
                == permute_spec(num, index, k0, k1, k2, h) && (forall|s: nat|
                1 <= s < k ==> #[trigger] iter_encode(index, k0, k1, k2, h, s) >= num),
{
    lemma_orbit_hits(num, index, k0, k1, k2, h);
    let khit = choose|k: int|
        1 <= k <= pow2(2 * h) && #[trigger] iter_encode(index, k0, k1, k2, h, k as nat) < num;
    let u1 = encode_spec(index, k0, k1, k2, h);
    lemma_encode_bound(index, k0, k1, k2, h);
    lemma_iter_encode_shift(index, k0, k1, k2, h, khit as nat);
    lemma_walk_hit(num, u1, k0, k1, k2, h, pow2(2 * h), (khit - 1) as nat);
    let j = choose|j: nat|
        j <= khit - 1 && walk_encode_spec(num, u1, k0, k1, k2, h, pow2(2 * h))
            == #[trigger] iter_encode(u1, k0, k1, k2, h, j) && (forall|s: nat|
            s < j ==> #[trigger] iter_encode(u1, k0, k1, k2, h, s) >= num);
    lemma_iter_encode_shift(index, k0, k1, k2, h, (j + 1) as nat);
    let w: nat = (j + 1) as nat;
    assert(iter_encode(index, k0, k1, k2, h, w) == permute_spec(num, index, k0, k1, k2, h));
    assert forall|s: nat| 1 <= s < w implies #[trigger] iter_encode(index, k0, k1, k2, h, s)
        >= num by {
        lemma_iter_encode_shift(index, k0, k1, k2, h, s);
        assert(iter_encode(u1, k0, k1, k2, h, (s - 1) as nat) >= num);
    }
    assert(1 <= w as int <= pow2(2 * h) && iter_encode(index, k0, k1, k2, h, (
    w as int) as nat) == permute_spec(num, index, k0, k1, k2, h) && (forall|s: nat|
        1 <= s < w as int ==> #[trigger] iter_encode(index, k0, k1, k2, h, s) >= num));
}


/// Walking the inverse permutation back down an encoding chain whose
/// intermediate values all lie outside the domain lands on the start.
proof fn lemma_walk_decode_chain(
    num: u64,
    x: u64,
    k0: u64,
    k1: u64,
    k2: u64,
    h: nat,
    t: nat,
    fuel: nat,
)
    requires
        1 <= h <= 31,
        num <= pow2(2 * h),
        x < num,
        t <= fuel,
        forall|s: nat| 1 <= s <= t ==> #[trigger] iter_encode(x, k0, k1, k2, h, s) >= num,
    ensures
        walk_decode_spec(num, iter_encode(x, k0, k1, k2, h, t), k0, k1, k2, h, fuel) == x,
    decreases t,
{
    if t == 0 {
        assert(iter_encode(x, k0, k1, k2, h, 0) == x);
    } else {
        let u = iter_encode(x, k0, k1, k2, h, t);
        let u_prev = iter_encode(x, k0, k1, k2, h, (t - 1) as nat);
        assert(u >= num);
        assert(u == encode_spec(u_prev, k0, k1, k2, h));
        lemma_iter_encode_bound(x, k0, k1, k2, h, (t - 1) as nat);
        lemma_decode_encode(u_prev, k0, k1, k2, h);
        assert(decode_spec(u, k0, k1, k2, h) == u_prev);
        assert(walk_decode_spec(num, u, k0, k1, k2, h, fuel) == walk_decode_spec(
            num,
            u_prev,
            k0,
            k1,
            k2,
            h,
            (fuel - 1) as nat,
        ));
        lemma_walk_decode_chain(num, x, k0, k1, k2, h, (t - 1) as nat, (fuel - 1) as nat);
    }
}

/// The inverse permutation inverts the permutation on its whole domain:
/// the permutation is a bijection of `[0, num)`.
pub proof fn lemma_invert_permute_inverts(num: u64, index: u64, k0: u64, k1: u64, k2: u64, h: nat)
    requires
        1 <= h <= 31,
        2 <= num <= pow2(2 * h),
        index < num,
    ensures
        invert_permute_spec(num, permute_spec(num, index, k0, k1, k2, h), k0, k1, k2, h) == index,
{
    lemma_permute_is_iterate(num, index, k0, k1, k2, h);
    let k = choose|k: int|
        1 <= k <= pow2(2 * h) && #[trigger] iter_encode(index, k0, k1, k2, h, k as nat)
            == permute_spec(num, index, k0, k1, k2, h) && (forall|s: nat|
            1 <= s < k ==> #[trigger] iter_encode(index, k0, k1, k2, h, s) >= num);
    let y = permute_spec(num, index, k0, k1, k2, h);
    let y_prev = iter_encode(index, k0, k1, k2, h, (k - 1) as nat);
    lemma_iter_encode_bound(index, k0, k1, k2, h, (k - 1) as nat);
    assert(y == encode_spec(y_prev, k0, k1, k2, h)) by {
        assert(iter_encode(index, k0, k1, k2, h, k as nat) == encode_spec(
            iter_encode(index, k0, k1, k2, h, (k - 1) as nat),
            k0,
            k1,
            k2,
            h,
        ));
    }
    lemma_decode_encode(y_prev, k0, k1, k2, h);
    assert(decode_spec(y, k0, k1, k2, h) == y_prev);
    assert(invert_permute_spec(num, y, k0, k1, k2, h) == walk_decode_spec(
        num,
        y_prev,
        k0,
        k1,
        k2,
        h,
        pow2(2 * h),
    ));
    assert(k - 1 <= pow2(2 * h));
    lemma_walk_decode_chain(num, index, k0, k1, k2, h, (k - 1) as nat, pow2(2 * h));
}

/// The permutation is injective on its domain.
pub proof fn lemma_permute_injective(num: u64, x: u64, y: u64, k0: u64, k1: u64, k2: u64, h: nat)
    requires
        1 <= h <= 31,
        2 <= num <= pow2(2 * h),
        x < num,
        y < num,
        permute_spec(num, x, k0, k1, k2, h) == permute_spec(num, y, k0, k1, k2, h),
    ensures
        x == y,
{
    lemma_invert_permute_inverts(num, x, k0, k1, k2, h);
    lemma_invert_permute_inverts(num, y, k0, k1, k2, h);
}

} // verus!
