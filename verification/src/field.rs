//! Canonical byte encoding of scalar-field elements and addition mod `p`.
//!
//! A node is 32 little-endian bytes.  The canonical decoding clears the top
//! two bits of the final byte so the value always fits in 254 bits, below
//! the BLS12-381 scalar-field prime `p`.  Addition wraps exactly at `p`:
//! the raw sum is reduced by subtracting `p` once when it is reached.
use vstd::prelude::*;

use crate::error::Error;

verus! {

/// Little-endian value of a byte sequence.
pub open spec fn le_val(s: Seq<u8>) -> nat
    decreases s.len(),
{
    if s.len() == 0 {
        0
    } else {
        (s[0] + 256 * le_val(s.drop_first())) as nat
    }
}

/// 256 to the power `n`.
pub open spec fn pow256(n: nat) -> nat
    decreases n,
{
    if n == 0 {
        1nat
    } else {
        256 * pow256((n - 1) as nat)
    }
}

/// The scalar-field prime, as little-endian bytes.
pub open spec fn p_le_bytes() -> Seq<u8> {
    seq![
        0x01u8, 0x00u8, 0x00u8, 0x00u8, 0xffu8, 0xffu8, 0xffu8, 0xffu8,
        0xfeu8, 0x5bu8, 0xfeu8, 0xffu8, 0x02u8, 0xa4u8, 0xbdu8, 0x53u8,
        0x05u8, 0xd8u8, 0xa1u8, 0x09u8, 0x08u8, 0xd8u8, 0x39u8, 0x33u8,
        0x48u8, 0x7du8, 0x9du8, 0x29u8, 0x53u8, 0xa7u8, 0xedu8, 0x73u8,
    ]
}

/// The scalar-field prime.
pub open spec fn p_nat() -> nat {
    le_val(p_le_bytes())
}

/// A byte sequence with the top two bits of byte 31 cleared.
pub open spec fn mask_spec(s: Seq<u8>) -> Seq<u8>
    recommends
        s.len() == 32,
{
    s.update(31, (s[31] & 0x3f) as u8)
}

/// Appending one byte adds its weighted value.
pub proof fn lemma_le_val_snoc(s: Seq<u8>, b: u8)
    ensures
        le_val(s.push(b)) == le_val(s) + b * pow256(s.len()),
    decreases s.len(),
{
    if s.len() == 0 {
        assert(s.push(b).drop_first() =~= Seq::<u8>::empty());
        assert(s.push(b)[0] == b);
        assert(le_val(s.push(b)) == (s.push(b)[0] + 256 * le_val(s.push(b).drop_first())) as nat);
        assert(le_val(s.push(b).drop_first()) == 0);
        assert(le_val(s) == 0);
        assert(b * pow256(0) == b) by (nonlinear_arith);
    } else {
        assert(s.push(b).drop_first() =~= s.drop_first().push(b));
        lemma_le_val_snoc(s.drop_first(), b);
        let t = le_val(s.drop_first());
        let q = pow256((s.len() - 1) as nat);
        assert(le_val(s.push(b)) == s[0] + 256 * (t + b * q));
        assert(256 * (t + b * q) == 256 * t + b * (256 * q)) by (nonlinear_arith);
        assert(pow256(s.len()) == 256 * q);
    }
}

/// The value of `n` bytes is below `256^n`.
pub proof fn lemma_le_val_bound(s: Seq<u8>)
    ensures
        le_val(s) < pow256(s.len()),
    decreases s.len(),
{
    if s.len() == 0 {
    } else {
        lemma_le_val_bound(s.drop_first());
    }
}

/// Splitting a byte sequence splits its value.
pub proof fn lemma_le_val_split(s: Seq<u8>, i: int)
    requires
        0 <= i <= s.len(),
    ensures
        le_val(s) == le_val(s.subrange(0, i)) + pow256(i as nat) * le_val(
            s.subrange(i, s.len() as int),
        ),
    decreases i,
{
    if i == 0 {
        assert(s.subrange(0, 0) =~= Seq::<u8>::empty());
        assert(s.subrange(0, s.len() as int) =~= s);
        assert(le_val(s.subrange(0, 0)) == 0);
        assert(pow256(0) * le_val(s) == le_val(s)) by (nonlinear_arith);
    } else {
        assert(s.subrange(0, i) =~= s.subrange(0, i - 1).push(s[i - 1]));
        lemma_le_val_split(s, i - 1);
        lemma_le_val_snoc(s.subrange(0, i - 1), s[i - 1]);
        assert(s.subrange(i - 1, s.len() as int).drop_first() =~= s.subrange(i, s.len() as int));
        let c = s[i - 1];
        let tail = le_val(s.subrange(i, s.len() as int));
        let q = pow256((i - 1) as nat);
        assert(le_val(s.subrange(i - 1, s.len() as int)) == c + 256 * tail);
        assert(le_val(s) == le_val(s.subrange(0, i - 1)) + q * (c + 256 * tail));
        assert(le_val(s.subrange(0, i)) == le_val(s.subrange(0, i - 1)) + c * q);
        assert(pow256(i as nat) == 256 * q);
        assert(q * (c + 256 * tail) == c * q + (256 * q) * tail) by (nonlinear_arith);
    }
}

/// The value of a single byte is that byte.
pub proof fn lemma_le_val_single(s: Seq<u8>)
    requires
        s.len() == 1,
    ensures
        le_val(s) == s[0],
{
    assert(s.drop_first() =~= Seq::<u8>::empty());
    assert(le_val(s) == (s[0] + 256 * le_val(s.drop_first())) as nat);
    assert(le_val(s.drop_first()) == 0);
}

/// Two equal-length sequences whose bytes agree above `i` compare by byte `i`.
proof fn lemma_le_val_lex(a: Seq<u8>, b: Seq<u8>, i: int)
    requires
        a.len() == b.len(),
        0 <= i < a.len(),
        forall|j: int| i < j < a.len() ==> a[j] == b[j],
        a[i] < b[i],
    ensures
        le_val(a) < le_val(b),
{
    lemma_le_val_split(a, i);
    lemma_le_val_split(b, i);
    assert(a.subrange(i, a.len() as int).drop_first() =~= a.subrange(i + 1, a.len() as int));
    assert(b.subrange(i, b.len() as int).drop_first() =~= b.subrange(i + 1, b.len() as int));
    assert(a.subrange(i + 1, a.len() as int) =~= b.subrange(i + 1, b.len() as int));
    let ta = le_val(a.subrange(i, a.len() as int));
    let tb = le_val(b.subrange(i, b.len() as int));
    assert(ta == a[i] + 256 * le_val(a.subrange(i + 1, a.len() as int)));
    assert(tb == b[i] + 256 * le_val(b.subrange(i + 1, b.len() as int)));
    assert(ta < tb);
    lemma_le_val_bound(a.subrange(0, i));
    assert(le_val(a.subrange(0, i)) < pow256(i as nat));
    assert(pow256(i as nat) * ta + pow256(i as nat) <= pow256(i as nat) * tb) by (nonlinear_arith)
        requires
            ta < tb,
            pow256(i as nat) > 0,
    ;
    assert(le_val(b.subrange(0, i)) >= 0);
}

/// `pow256` is positive.
pub proof fn lemma_pow256_pos(n: nat)
    ensures
        pow256(n) >= 1,
    decreases n,
{
    if n > 0 {
        lemma_pow256_pos((n - 1) as nat);
    }
}

/// The masked value stays below `p`.
pub proof fn lemma_mask_below_p(s: Seq<u8>)
    requires
        s.len() == 32,
    ensures
        le_val(mask_spec(s)) < p_nat(),
        le_val(mask_spec(s)) < 64 * pow256(31),
{
    let m = mask_spec(s);
    assert(m.len() == 32);
    lemma_le_val_split(m, 31);
    lemma_le_val_bound(m.subrange(0, 31));
    let tail = m.subrange(31, 32);
    assert(tail.len() == 1);
    assert(tail.drop_first() =~= Seq::<u8>::empty());
    assert(le_val(tail) == (tail[0] + 256 * le_val(tail.drop_first())) as nat);
    assert(le_val(tail.drop_first()) == 0);
    assert(tail[0] == m[31]);
    assert(le_val(m.subrange(31, 32)) == m[31]);
    let top = s[31];
    assert(m[31] == (top & 0x3f));
    assert(top & 0x3f < 64) by (bit_vector);
    assert(le_val(m) == le_val(m.subrange(0, 31)) + pow256(31) * m[31]);
    assert(pow256(31) * m[31] <= pow256(31) * 63) by (nonlinear_arith)
        requires
            m[31] <= 63,
            pow256(31) >= 1,
    ;
    lemma_pow256_pos(31);
    assert(le_val(m) < 64 * pow256(31));
    let p = p_le_bytes();
    lemma_le_val_split(p, 31);
    lemma_le_val_single(p.subrange(31, 32));
    assert(le_val(p.subrange(31, 32)) == p[31]);
    assert(p[31] == 0x73);
    assert(pow256(31) * 0x73 >= 64 * pow256(31)) by (nonlinear_arith)
        requires
            pow256(31) >= 1,
    ;
}

/// Clear the top two bits of byte 31: the canonical safe decoding.
pub fn fr_safe(s: &[u8]) -> (r: Vec<u8>)
    requires
        s@.len() == 32,
    ensures
        r@ == mask_spec(s@),
        r@.len() == 32,
        le_val(r@) < p_nat(),
{
    let mut r: Vec<u8> = Vec::new();
    let mut i: usize = 0;
    while i < 32
        invariant
            s@.len() == 32,
            i <= 32,
            r@.len() == i,
            forall|j: int| 0 <= j < i ==> r@[j] == s@[j],
        decreases 32 - i,
    {
        r.push(s[i]);
        i = i + 1;
    }
    let top = r[31] & 0x3f;
    r[31] = top;
    proof {
        assert(r@ =~= mask_spec(s@));
        lemma_mask_below_p(s@);
    }
    r
}

/// The prime `p` as little-endian bytes.
pub fn p_bytes() -> (r: Vec<u8>)
    ensures
        r@ == p_le_bytes(),
{
    let r: Vec<u8> = vec![
        0x01u8, 0x00u8, 0x00u8, 0x00u8, 0xffu8, 0xffu8, 0xffu8, 0xffu8,
        0xfeu8, 0x5bu8, 0xfeu8, 0xffu8, 0x02u8, 0xa4u8, 0xbdu8, 0x53u8,
        0x05u8, 0xd8u8, 0xa1u8, 0x09u8, 0x08u8, 0xd8u8, 0x39u8, 0x33u8,
        0x48u8, 0x7du8, 0x9du8, 0x29u8, 0x53u8, 0xa7u8, 0xedu8, 0x73u8,
    ];
    proof {
        assert(r@ =~= p_le_bytes());
    }
    r
}

/// Whether the 32-byte value is at least `p`.
pub fn ge_p(v: &[u8]) -> (r: bool)
    requires
        v@.len() == 32,
    ensures
        r == (le_val(v@) >= p_nat()),
{
    let p = p_bytes();
    let mut i: usize = 32;
    loop
        invariant
            v@.len() == 32,
            p@ == p_le_bytes(),
            0 <= i <= 32,
            forall|j: int| i <= j < 32 ==> v@[j] == p@[j],
        decreases i,
    {
        if i == 0 {
            proof {
                assert(v@ =~= p_le_bytes());
            }
            return true;
        }
        i = i - 1;
        if v[i] > p[i] {
            proof {
                lemma_le_val_lex(p@, v@, i as int);
            }
            return true;
        }
        if v[i] < p[i] {
            proof {
                lemma_le_val_lex(v@, p@, i as int);
            }
            return false;
        }
    }
}

/// Byte-wise subtraction of `p`, for a value in `[p, 2p)`.
fn sub_p(v: &[u8]) -> (r: Vec<u8>)
    requires
        v@.len() == 32,
        le_val(v@) >= p_nat(),
    ensures
        r@.len() == 32,
        le_val(r@) == le_val(v@) - p_nat(),
{
    let p = p_bytes();
    let mut r: Vec<u8> = Vec::new();
    let mut borrow: u16 = 0;
    let mut i: usize = 0;
    while i < 32
        invariant
            v@.len() == 32,
            p@ == p_le_bytes(),
            i <= 32,
            r@.len() == i,
            borrow <= 1,
            le_val(r@) == le_val(v@.subrange(0, i as int)) - le_val(p@.subrange(0, i as int))
                + borrow * pow256(i as nat),
        decreases 32 - i,
    {
        let d: u16 = 256 + v[i] as u16 - p[i] as u16 - borrow;
        let byte: u8 = (d % 256) as u8;
        let new_borrow: u16 = if d < 256 { 1 } else { 0 };
        proof {
            let gr = r@;
            let gi = i as int;
            lemma_le_val_snoc(gr, byte);
            assert(v@.subrange(0, gi + 1) =~= v@.subrange(0, gi).push(v@[gi]));
            lemma_le_val_snoc(v@.subrange(0, gi), v@[gi]);
            assert(p@.subrange(0, gi + 1) =~= p@.subrange(0, gi).push(p@[gi]));
            lemma_le_val_snoc(p@.subrange(0, gi), p@[gi]);
            assert(byte == v@[gi] - p@[gi] - borrow + new_borrow * 256) by {
                assert(d == 256 + v@[gi] - p@[gi] - borrow);
                if d < 256 {
                    assert(byte == d);
                } else {
                    assert(byte == d - 256);
                }
            }
            let q = pow256(i as nat);
            let vi = v@[gi] as int;
            let pi = p@[gi] as int;
            let bo = borrow as int;
            let nb = new_borrow as int;
            assert((vi - pi - bo + nb * 256) * q == vi * q - pi * q - bo * q + nb * (256 * q))
                by (nonlinear_arith);
            assert(pow256((i + 1) as nat) == 256 * q);
        }
        r.push(byte);
        borrow = new_borrow;
        i = i + 1;
    }
    proof {
        assert(v@.subrange(0, 32) =~= v@);
        assert(p@.subrange(0, 32) =~= p_le_bytes());
        if borrow == 1 {
            lemma_le_val_bound(r@);
            lemma_le_val_bound(v@);
            assert(false);
        }
    }
    r
}

/// Raw byte-wise sum of two 32-byte values below `p`; no final carry.
fn add_raw(a: &[u8], b: &[u8]) -> (r: Vec<u8>)
    requires
        a@.len() == 32,
        b@.len() == 32,
        le_val(a@) < p_nat(),
        le_val(b@) < p_nat(),
    ensures
        r@.len() == 32,
        le_val(r@) == le_val(a@) + le_val(b@),
{
    let mut r: Vec<u8> = Vec::new();
    let mut carry: u16 = 0;
    let mut i: usize = 0;
    while i < 32
        invariant
            a@.len() == 32,
            b@.len() == 32,
            i <= 32,
            r@.len() == i,
            carry <= 1,
            le_val(r@) + carry * pow256(i as nat) == le_val(a@.subrange(0, i as int)) + le_val(
                b@.subrange(0, i as int),
            ),
        decreases 32 - i,
    {
        let s: u16 = a[i] as u16 + b[i] as u16 + carry;
        let byte: u8 = (s % 256) as u8;
        let new_carry: u16 = s / 256;
        proof {
            let gi = i as int;
            lemma_le_val_snoc(r@, byte);
            assert(a@.subrange(0, gi + 1) =~= a@.subrange(0, gi).push(a@[gi]));
            lemma_le_val_snoc(a@.subrange(0, gi), a@[gi]);
            assert(b@.subrange(0, gi + 1) =~= b@.subrange(0, gi).push(b@[gi]));
            lemma_le_val_snoc(b@.subrange(0, gi), b@[gi]);
            assert(byte + new_carry * 256 == a@[gi] + b@[gi] + carry);
            assert((byte + new_carry * 256) * pow256(i as nat) == byte * pow256(i as nat)
                + new_carry * 256 * pow256(i as nat)) by (nonlinear_arith);
            assert((a@[gi] + b@[gi] + carry) * pow256(i as nat) == a@[gi] * pow256(i as nat)
                + b@[gi] * pow256(i as nat) + carry * pow256(i as nat)) by (nonlinear_arith);
            assert(new_carry * 256 * pow256(i as nat) == new_carry * pow256((i + 1) as nat))
                by (nonlinear_arith)
                requires
                    pow256((i + 1) as nat) == 256 * pow256(i as nat),
            ;
        }
        r.push(byte);
        carry = new_carry;
        i = i + 1;
    }
    proof {
        assert(a@.subrange(0, 32) =~= a@);
        assert(b@.subrange(0, 32) =~= b@);
        if carry == 1 {
            let p = p_le_bytes();
            lemma_le_val_split(p, 31);
            lemma_le_val_bound(p.subrange(0, 31));
            lemma_le_val_single(p.subrange(31, 32));
            assert(le_val(p.subrange(31, 32)) == p[31]);
            assert(pow256(31) * 0x73 < pow256(31) * 128) by (nonlinear_arith)
                requires
                    pow256(31) >= 1,
            ;
            lemma_pow256_pos(31);
            assert(p_nat() < 129 * pow256(31));
            assert(pow256(32) == 256 * pow256(31));
            assert(le_val(a@) + le_val(b@) < 258 * pow256(31));
            lemma_le_val_bound(r@);
            assert(le_val(r@) + pow256(32) >= pow256(32));
            assert(false);
        }
    }
    r
}

/// Sum of two canonical field elements, wrapped exactly at `p`.
pub fn add_mod_p(a: &[u8], b: &[u8]) -> (r: Vec<u8>)
    requires
        a@.len() == 32,
        b@.len() == 32,
        le_val(a@) < p_nat(),
        le_val(b@) < p_nat(),
    ensures
        r@.len() == 32,
        le_val(r@) == (le_val(a@) + le_val(b@)) % p_nat(),
        le_val(r@) < p_nat(),
{
    let raw = add_raw(a, b);
    proof {
        lemma_pow256_pos(31);
    }
    let reduced = if ge_p(raw.as_slice()) {
        sub_p(raw.as_slice())
    } else {
        raw
    };
    proof {
        let s = le_val(a@) + le_val(b@);
        let p = p_nat();
        assert(p > 0) by {
            lemma_le_val_split(p_le_bytes(), 31);
            lemma_le_val_single(p_le_bytes().subrange(31, 32));
            assert(pow256(31) * 0x73 >= 1) by (nonlinear_arith)
                requires
                    pow256(31) >= 1,
            ;
        }
        if s < p {
            assert(s % p == s) by (nonlinear_arith)
                requires
                    0 <= s < p,
            ;
        } else {
            assert(s - p < p);
            assert(s % p == s - p) by (nonlinear_arith)
                requires
                    p <= s < 2 * p,
                    p > 0,
            ;
        }
    }
    reduced
}

/// Accept exactly the canonical encodings: 32 bytes whose value is below `p`.
pub fn fr_check(s: &[u8]) -> (r: Result<Vec<u8>, Error>)
    requires
        s@.len() == 32,
    ensures
        le_val(s@) < p_nat() <==> r is Ok,
        r is Ok ==> r->Ok_0@ == s@,
{
    if ge_p(s) {
        Err(Error::Domain)
    } else {
        let mut r: Vec<u8> = Vec::new();
        let mut i: usize = 0;
        while i < 32
            invariant
                s@.len() == 32,
                i <= 32,
                r@.len() == i,
                forall|j: int| 0 <= j < i ==> r@[j] == s@[j],
            decreases 32 - i,
        {
            r.push(s[i]);
            i = i + 1;
        }
        proof {
            assert(r@ =~= s@);
        }
        Ok(r)
    }
}


/// The `n` little-endian bytes of a value.
pub open spec fn le_bytes_n(v: nat, n: nat) -> Seq<u8>
    decreases n,
{
    if n == 0 {
        Seq::<u8>::empty()
    } else {
        seq![(v % 256) as u8] + le_bytes_n(v / 256, (n - 1) as nat)
    }
}

/// `le_bytes_n` produces `n` bytes holding the value reduced mod `256^n`.
pub proof fn lemma_le_bytes_n_val(v: nat, n: nat)
    ensures
        le_bytes_n(v, n).len() == n,
        le_val(le_bytes_n(v, n)) == v % pow256(n),
    decreases n,
{
    if n == 0 {
        assert(v % 1 == 0) by (nonlinear_arith);
    } else {
        lemma_le_bytes_n_val(v / 256, (n - 1) as nat);
        let s = le_bytes_n(v, n);
        assert(s.drop_first() =~= le_bytes_n(v / 256, (n - 1) as nat));
        assert(s[0] == (v % 256) as u8);
        assert(le_val(s) == v % 256 + 256 * ((v / 256) % pow256((n - 1) as nat)));
        let q = pow256((n - 1) as nat);
        lemma_pow256_pos((n - 1) as nat);
        vstd::arithmetic::div_mod::lemma_breakdown(v as int, 256, q as int);
        assert(v % (256 * q) == 256 * ((v / 256) % q) + v % 256);
        assert(pow256(n) == 256 * q);
    }
}

/// A byte sequence is recovered from its value: `le_val` is injective on
/// sequences of equal length.
pub proof fn lemma_le_bytes_of_le_val(s: Seq<u8>)
    ensures
        le_bytes_n(le_val(s), s.len()) == s,
    decreases s.len(),
{
    if s.len() == 0 {
        assert(le_bytes_n(le_val(s), 0) =~= s);
    } else {
        let tail = s.drop_first();
        lemma_le_bytes_of_le_val(tail);
        let v = le_val(s);
        assert(v == s[0] + 256 * le_val(tail));
        assert(v % 256 == s[0] && v / 256 == le_val(tail)) by (nonlinear_arith)
            requires
                v == s[0] + 256 * le_val(tail),
                0 <= s[0] < 256,
                le_val(tail) >= 0,
        ;
        assert(le_bytes_n(v, s.len()) =~= s);
    }
}

/// Two equal-length byte sequences with the same value are equal.
pub proof fn lemma_le_val_injective(a: Seq<u8>, b: Seq<u8>)
    requires
        a.len() == b.len(),
        le_val(a) == le_val(b),
    ensures
        a == b,
{
    lemma_le_bytes_of_le_val(a);
    lemma_le_bytes_of_le_val(b);
}

} // verus!
