//! The stacked depth-robust graph: DRG base parents, Feistel-derived
//! expander parents, and the reversed expander adjacency.
//!
//! Base parents of a node are sampled from a ChaCha stream seeded with the
//! graph seed and the node index, then sorted ascending; nodes 0 and 1 have
//! all-zero rows.  Expander parents come from a Feistel permutation of the
//! slot index, filtered to smaller nodes; a filtered-out slot keeps the
//! padding value 0, which the encoder still absorbs.  The reversed rows
//! list, for each node, the nodes whose expander edges point at it.
use vstd::prelude::*;

use crate::error::Error;
use crate::feistel;
use crate::prg::chacha_gen_u64;
use crate::prg::chacha_range_u64;
use crate::prg::NodePrg;

verus! {

/// Machine and design limits on graph parameters: at least four nodes, at
/// most `2^32`; degrees within the fixed hash plan.
pub open spec fn params_ok(nodes: usize, base_degree: usize, expansion_degree: usize) -> bool {
    &&& 4 <= nodes <= 0xffff_ffff
    &&& 1 <= base_degree <= crate::BASE_PARENTS
    &&& 1 <= expansion_degree <= crate::EXP_PARENTS
}

/// Floor of the base-two logarithm.
pub open spec fn ilog2(n: nat) -> nat
    decreases n,
{
    if n < 2 {
        0
    } else {
        1 + ilog2(n / 2)
    }
}

/// Floor of the base-two logarithm, executably.
pub fn ilog2_exec(n: u64) -> (r: u64)
    requires
        n >= 1,
    ensures
        r == ilog2(n as nat),
        r <= 63,
{
    let mut m: u64 = n;
    let mut c: u64 = 0;
    proof {
        vstd::arithmetic::power2::lemma2_to64();
    }
    while m >= 2
        invariant
            m >= 1,
            ilog2(n as nat) == c + ilog2(m as nat),
            vstd::arithmetic::power2::pow2(c as nat) * m <= n,
        decreases m,
    {
        proof {
            let p = vstd::arithmetic::power2::pow2(c as nat);
            assert(vstd::arithmetic::power2::pow2((c + 1) as nat) == 2 * p) by {
                vstd::arithmetic::power2::lemma_pow2_adds(1, c as nat);
                vstd::arithmetic::power2::lemma2_to64();
            }
            vstd::arithmetic::power2::lemma_pow2_pos(c as nat);
            assert(2 * p * (m / 2) <= p * m) by (nonlinear_arith)
                requires
                    p >= 1,
                    m >= 2,
            ;
            if c + 1 > 63 {
                vstd::arithmetic::power2::lemma2_to64_rest();
                if c + 1 > 64 {
                    vstd::arithmetic::power2::lemma_pow2_strictly_increases(64, (c + 1) as nat);
                }
                assert((m / 2) as int * vstd::arithmetic::power2::pow2((c + 1) as nat) as int
                    >= vstd::arithmetic::power2::pow2(64)) by (nonlinear_arith)
                    requires
                        m / 2 >= 1,
                        vstd::arithmetic::power2::pow2((c + 1) as nat)
                            >= vstd::arithmetic::power2::pow2(64),
                ;
                assert(false);
            }
        }
        m = m / 2;
        c = c + 1;
    }
    proof {
        if c > 63 {
            vstd::arithmetic::power2::lemma2_to64_rest();
            if c > 64 {
                vstd::arithmetic::power2::lemma_pow2_strictly_increases(64, c as nat);
            }
            assert(vstd::arithmetic::power2::pow2(c as nat) * m >= vstd::arithmetic::power2::pow2(
                64,
            )) by (nonlinear_arith)
                requires
                    m >= 1,
                    vstd::arithmetic::power2::pow2(c as nat) >= vstd::arithmetic::power2::pow2(64),
            ;
            assert(false);
        }
    }
    c
}

/// All entries are in ascending order.
pub open spec fn sorted_asc(s: Seq<usize>) -> bool {
    forall|i: int, j: int| 0 <= i < j < s.len() ==> s[i] <= s[j]
}

/// Insert a value in front of the first entry that is not smaller.
pub open spec fn insert_sorted(x: usize, s: Seq<usize>) -> Seq<usize>
    decreases s.len(),
{
    if s.len() == 0 {
        seq![x]
    } else if x <= s[0] {
        seq![x] + s
    } else {
        seq![s[0]] + insert_sorted(x, s.drop_first())
    }
}

/// Insertion sort of a sequence.
pub open spec fn sort_seq(s: Seq<usize>) -> Seq<usize>
    decreases s.len(),
{
    if s.len() == 0 {
        Seq::<usize>::empty()
    } else {
        insert_sorted(s[0], sort_seq(s.drop_first()))
    }
}

/// Inserting keeps the order, grows the length by one, and adds exactly
/// the inserted value to the members.
pub proof fn lemma_insert_sorted_props(x: usize, s: Seq<usize>)
    requires
        sorted_asc(s),
    ensures
        sorted_asc(insert_sorted(x, s)),
        insert_sorted(x, s).len() == s.len() + 1,
        insert_sorted(x, s).contains(x),
        forall|y: usize| #[trigger] insert_sorted(x, s).contains(y) ==> (y == x || s.contains(y)),
        forall|y: usize| #[trigger] s.contains(y) ==> insert_sorted(x, s).contains(y),
    decreases s.len(),
{
    if s.len() == 0 {
        assert(insert_sorted(x, s)[0] == x);
        assert forall|y: usize| #[trigger] insert_sorted(x, s).contains(y) implies (y == x
            || s.contains(y)) by {
            let i = choose|i: int|
                0 <= i < insert_sorted(x, s).len() && insert_sorted(x, s)[i] == y;
            assert(i == 0);
        }
    } else if x <= s[0] {
        assert(insert_sorted(x, s) == seq![x] + s);
        assert(insert_sorted(x, s)[0] == x);
        assert forall|y: usize| #[trigger] insert_sorted(x, s).contains(y) implies (y == x
            || s.contains(y)) by {
            let i = choose|i: int|
                0 <= i < insert_sorted(x, s).len() && insert_sorted(x, s)[i] == y;
            if i != 0 {
                assert(s[i - 1] == y);
            }
        }
        assert forall|y: usize| #[trigger] s.contains(y) implies insert_sorted(x, s).contains(
            y,
        ) by {
            let i = choose|i: int| 0 <= i < s.len() && s[i] == y;
            assert(insert_sorted(x, s)[i + 1] == y);
        }
        assert forall|i: int, j: int|
            0 <= i < j < insert_sorted(x, s).len() implies insert_sorted(x, s)[i] <= insert_sorted(
            x,
            s,
        )[j] by {
            if i == 0 {
                assert(insert_sorted(x, s)[j] == s[j - 1]);
                if j - 1 > 0 {
                    assert(s[0] <= s[j - 1]);
                }
            } else {
                assert(insert_sorted(x, s)[i] == s[i - 1] && insert_sorted(x, s)[j] == s[j - 1]);
            }
        }
    } else {
        let tail = s.drop_first();
        assert(sorted_asc(tail)) by {
            assert forall|i: int, j: int| 0 <= i < j < tail.len() implies tail[i] <= tail[j] by {
                assert(tail[i] == s[i + 1] && tail[j] == s[j + 1]);
            }
        }
        lemma_insert_sorted_props(x, tail);
        assert(insert_sorted(x, s) == seq![s[0]] + insert_sorted(x, tail));
        assert(insert_sorted(x, s).len() == s.len() + 1);
        assert(insert_sorted(x, s).contains(x)) by {
            let j = choose|j: int|
                0 <= j < insert_sorted(x, tail).len() && insert_sorted(x, tail)[j] == x;
            assert(insert_sorted(x, s)[j + 1] == x);
        }
        assert forall|y: usize| #[trigger] insert_sorted(x, s).contains(y) implies (y == x
            || s.contains(y)) by {
            let i = choose|i: int|
                0 <= i < insert_sorted(x, s).len() && insert_sorted(x, s)[i] == y;
            if i == 0 {
                assert(s[0] == y);
            } else {
                assert(insert_sorted(x, tail)[i - 1] == y);
                assert(insert_sorted(x, tail).contains(y));
                if y != x {
                    assert(tail.contains(y));
                    let j = choose|j: int| 0 <= j < tail.len() && tail[j] == y;
                    assert(s[j + 1] == y);
                }
            }
        }
        assert forall|y: usize| #[trigger] s.contains(y) implies insert_sorted(x, s).contains(
            y,
        ) by {
            let i = choose|i: int| 0 <= i < s.len() && s[i] == y;
            if i == 0 {
                assert(insert_sorted(x, s)[0] == y);
            } else {
                assert(tail[i - 1] == y);
                assert(tail.contains(y));
                assert(insert_sorted(x, tail).contains(y));
                let j = choose|j: int|
                    0 <= j < insert_sorted(x, tail).len() && insert_sorted(x, tail)[j] == y;
                assert(insert_sorted(x, s)[j + 1] == y);
            }
        }
        assert forall|i: int, j: int|
            0 <= i < j < insert_sorted(x, s).len() implies insert_sorted(x, s)[i] <= insert_sorted(
            x,
            s,
        )[j] by {
            if i == 0 {
                assert(insert_sorted(x, s)[0] == s[0]);
                assert(insert_sorted(x, s)[j] == insert_sorted(x, tail)[j - 1]);
                assert(insert_sorted(x, tail)[j - 1] == insert_sorted(x, tail)[j - 1]);
                assert(insert_sorted(x, tail).contains(insert_sorted(x, tail)[j - 1]));
                let y = insert_sorted(x, tail)[j - 1];
                if y == x {
                    assert(s[0] <= x);
                } else {
                    assert(tail.contains(y));
                    let p = choose|p: int| 0 <= p < tail.len() && tail[p] == y;
                    assert(s[0] <= s[p + 1]);
                }
            } else {
                assert(insert_sorted(x, s)[i] == insert_sorted(x, tail)[i - 1]);
                assert(insert_sorted(x, s)[j] == insert_sorted(x, tail)[j - 1]);
            }
        }
    }
}

/// Sorting sorts, keeps the length, and keeps exactly the members.
pub proof fn lemma_sort_seq_props(s: Seq<usize>)
    ensures
        sorted_asc(sort_seq(s)),
        sort_seq(s).len() == s.len(),
        forall|y: usize| #[trigger] sort_seq(s).contains(y) ==> s.contains(y),
        forall|y: usize| #[trigger] s.contains(y) ==> sort_seq(s).contains(y),
    decreases s.len(),
{
    if s.len() == 0 {
    } else {
        let tail = s.drop_first();
        lemma_sort_seq_props(tail);
        lemma_insert_sorted_props(s[0], sort_seq(tail));
        assert(sort_seq(s) == insert_sorted(s[0], sort_seq(tail)));
        assert forall|y: usize| #[trigger] sort_seq(s).contains(y) implies s.contains(y) by {
            assert(insert_sorted(s[0], sort_seq(tail)).contains(y));
            if y == s[0] {
                assert(s[0] == y);
            } else {
                assert(sort_seq(tail).contains(y));
                assert(tail.contains(y));
                let i = choose|i: int| 0 <= i < tail.len() && tail[i] == y;
                assert(s[i + 1] == y);
            }
        }
        assert forall|y: usize| #[trigger] s.contains(y) implies sort_seq(s).contains(y) by {
            let i = choose|i: int| 0 <= i < s.len() && s[i] == y;
            if i == 0 {
                assert(insert_sorted(s[0], sort_seq(tail)).contains(y));
            } else {
                assert(tail[i - 1] == y);
                assert(tail.contains(y));
                assert(sort_seq(tail).contains(y));
                assert(insert_sorted(s[0], sort_seq(tail)).contains(y));
            }
        }
    }
}

/// Where `insert_sorted` puts the value: in front of the first entry that
/// is not smaller.
proof fn lemma_insert_at(x: usize, s: Seq<usize>, pos: int)
    requires
        0 <= pos <= s.len(),
        forall|j: int| 0 <= j < pos ==> s[j] < x,
        pos < s.len() ==> x <= s[pos],
    ensures
        insert_sorted(x, s) == s.subrange(0, pos) + seq![x] + s.subrange(pos, s.len() as int),
    decreases pos,
{
    if pos == 0 {
        if s.len() == 0 {
            assert(insert_sorted(x, s) =~= s.subrange(0, 0) + seq![x] + s.subrange(0, 0));
        } else {
            assert(insert_sorted(x, s) =~= s.subrange(0, 0) + seq![x] + s.subrange(
                0,
                s.len() as int,
            ));
        }
    } else {
        let tail = s.drop_first();
        lemma_insert_at(x, tail, pos - 1);
        assert(insert_sorted(x, s) == seq![s[0]] + insert_sorted(x, tail));
        assert(seq![s[0]] + (tail.subrange(0, pos - 1) + seq![x] + tail.subrange(
            pos - 1,
            tail.len() as int,
        )) =~= s.subrange(0, pos) + seq![x] + s.subrange(pos, s.len() as int));
    }
}

/// Insert a value into a vector, keeping ascending order.
fn insert_sorted_exec(x: usize, s: &Vec<usize>) -> (r: Vec<usize>)
    ensures
        r@ == insert_sorted(x, s@),
{
    let mut pos: usize = 0;
    while pos < s.len() && s[pos] < x
        invariant
            pos <= s@.len(),
            forall|j: int| 0 <= j < pos ==> s@[j] < x,
        decreases s@.len() - pos,
    {
        pos = pos + 1;
    }
    let mut r: Vec<usize> = Vec::new();
    let mut i: usize = 0;
    while i < pos
        invariant
            pos <= s@.len(),
            i <= pos,
            r@ == s@.subrange(0, i as int),
        decreases pos - i,
    {
        proof {
            assert(s@.subrange(0, i + 1) =~= s@.subrange(0, i as int).push(s@[i as int]));
        }
        r.push(s[i]);
        i = i + 1;
    }
    r.push(x);
    let mut j: usize = pos;
    while j < s.len()
        invariant
            pos <= j <= s@.len(),
            r@ == s@.subrange(0, pos as int) + seq![x] + s@.subrange(pos as int, j as int),
        decreases s@.len() - j,
    {
        proof {
            assert((s@.subrange(0, pos as int) + seq![x] + s@.subrange(pos as int, j + 1)) =~= (
            s@.subrange(0, pos as int) + seq![x] + s@.subrange(pos as int, j as int)).push(
                s@[j as int],
            ));
        }
        r.push(s[j]);
        j = j + 1;
    }
    proof {
        if pos == s@.len() {
            assert(r@ =~= s@.subrange(0, pos as int) + seq![x] + s@.subrange(
                pos as int,
                s@.len() as int,
            ));
        }
        lemma_insert_at(x, s@, pos as int);
    }
    r
}

/// Insertion-sort a vector ascending.
pub fn sort_vec(s: &Vec<usize>) -> (r: Vec<usize>)
    ensures
        r@ == sort_seq(s@),
{
    let mut r: Vec<usize> = Vec::new();
    let mut i: usize = s.len();
    while i > 0
        invariant
            i <= s@.len(),
            r@ == sort_seq(s@.subrange(i as int, s@.len() as int)),
        decreases i,
    {
        i = i - 1;
        let ghost t = s@.subrange(i as int, s@.len() as int);
        proof {
            assert(t.len() > 0);
            assert(t[0] == s@[i as int]);
            assert(t.drop_first() =~= s@.subrange(i + 1, s@.len() as int));
        }
        r = insert_sorted_exec(s[i], &r);
    }
    proof {
        assert(s@.subrange(0, s@.len() as int) =~= s@);
    }
    r
}


/// The capped backtrack window for one meta-edge slot, derived from the
/// slot's first draw.
pub open spec fn drg_jj(seed8: Seq<u32>, v: int, m: int, k: int, prev: Seq<i64>) -> int {
    let g = chacha_gen_u64(seed8, prev);
    let logi = ilog2((v * m) as nat) as int;
    let j = (g as int) % logi;
    let cap = vstd::arithmetic::power2::pow2((j + 1) as nat) as int;
    if v * m + k <= cap {
        v * m + k
    } else {
        cap
    }
}

/// Lower bound of the backtrack window.
pub open spec fn drg_lo(jj: int) -> int {
    if jj / 2 >= 2 {
        jj / 2
    } else {
        2
    }
}

/// History of draws made before slot `k` of a node's sampling.
pub open spec fn drg_hist(seed8: Seq<u32>, v: int, m: int, k: nat) -> Seq<i64>
    decreases k,
{
    if k == 0 {
        Seq::<i64>::empty()
    } else {
        let prev = drg_hist(seed8, v, m, (k - 1) as nat);
        let jj = drg_jj(seed8, v, m, k - 1, prev);
        prev.push(-1i64) + seq![-2i64, drg_lo(jj) as i64, (jj + 1) as i64]
    }
}

/// The parent sampled for slot `k` of node `v`.
pub open spec fn drg_parent(seed8: Seq<u32>, v: int, m: int, k: nat) -> int {
    let prev = drg_hist(seed8, v, m, k);
    let jj = drg_jj(seed8, v, m, k as int, prev);
    let d = chacha_range_u64(seed8, prev.push(-1i64), drg_lo(jj) as u64, (jj + 1) as u64) as int;
    let diff = if d <= v * m + k {
        v * m + k - d
    } else {
        0
    };
    let out = diff / m;
    if out == v {
        v - 1
    } else {
        out
    }
}

/// The sampled parents of a node, in draw order.
pub open spec fn drg_unsorted(seed8: Seq<u32>, v: int, m: nat) -> Seq<usize> {
    Seq::new(m, |k: int| drg_parent(seed8, v, m as int, k as nat) as usize)
}

/// The base-parent row of a node: zeros for nodes 0 and 1, else the
/// sampled parents sorted ascending.
pub open spec fn bas_row_spec(seed8: Seq<u32>, v: int, m: nat) -> Seq<usize> {
    if v < 2 {
        Seq::new(m, |k: int| 0usize)
    } else {
        sort_seq(drg_unsorted(seed8, v, m))
    }
}

/// Every sampled parent of a node `v >= 2` is strictly below `v`.
pub proof fn lemma_drg_parent_bound(seed8: Seq<u32>, v: int, m: int, k: nat)
    requires
        2 <= v,
        1 <= m,
        k < m,
    ensures
        0 <= drg_parent(seed8, v, m, k) < v,
{
    let prev = drg_hist(seed8, v, m, k);
    let jj = drg_jj(seed8, v, m, k as int, prev);
    let d = chacha_range_u64(seed8, prev.push(-1i64), drg_lo(jj) as u64, (jj + 1) as u64) as int;
    let diff = if d <= v * m + k {
        v * m + k - d
    } else {
        0
    };
    let out = diff / m;
    assert(v * m + k >= 2) by (nonlinear_arith)
        requires
            v >= 2,
            m >= 1,
            k >= 0,
    ;
    assert(diff <= v * m + k);
    vstd::arithmetic::div_mod::lemma_div_is_ordered(diff, v * m + k as int, m);
    assert((v * m + k as int) / m == v) by {
        vstd::arithmetic::div_mod::lemma_fundamental_div_mod_converse(
            v * m + k as int,
            m,
            v,
            k as int,
        );
    }
    assert(out >= 0) by {
        vstd::arithmetic::div_mod::lemma_div_pos_is_pos(diff, m);
    }
}

/// Sample the base parents of one node as the DRG prescribes, sorted.
fn bucketsample_parents(seed: &[u32; 7], node: usize, m: usize) -> (r: Vec<usize>)
    requires
        1 <= m <= crate::BASE_PARENTS,
        node <= 0x1_0000_0000,
    ensures
        r@ == bas_row_spec(seed@.push(node as u32), node as int, m as nat),
        r@.len() == m,
{
    let ghost seed8 = seed@.push(node as u32);
    if node < 2 {
        let mut r: Vec<usize> = Vec::new();
        let mut k: usize = 0;
        while k < m
            invariant
                k <= m,
                r@.len() == k,
                forall|j: int| 0 <= j < k ==> r@[j] == 0usize,
            decreases m - k,
        {
            r.push(0);
            k = k + 1;
        }
        proof {
            assert(r@ =~= bas_row_spec(seed8, node as int, m as nat));
        }
        return r;
    }
    let mut prg = NodePrg::from_seed(seed, node as u32);
    proof {
        assert(2 <= (node as u64) * (m as u64) <= 0x5_0000_0000) by (nonlinear_arith)
            requires
                2 <= node <= 0x1_0000_0000,
                1 <= m <= 5,
        ;
    }
    let vm: u64 = (node as u64) * (m as u64);
    let mut out: Vec<usize> = Vec::new();
    let mut k: usize = 0;
    while k < m
        invariant
            2 <= node <= 0x1_0000_0000,
            1 <= m <= 5,
            vm == (node as u64) * (m as u64),
            2 <= vm <= 0x5_0000_0000,
            k <= m,
            out@.len() == k,
            prg.seed_view() == seed8,
            prg.history_view() == drg_hist(seed8, node as int, m as int, k as nat),
            forall|j: int|
                0 <= j < k ==> #[trigger] out@[j] == drg_parent(
                    seed8,
                    node as int,
                    m as int,
                    j as nat,
                ) as usize,
        decreases m - k,
    {
        let ghost prev = drg_hist(seed8, node as int, m as int, k as nat);
        let g = prg.gen_u64();
        let logi = ilog2_exec(vm);
        proof {
            if logi == 0 {
                assert(ilog2(vm as nat) >= 1) by {
                    assert(vm >= 2);
                }
                assert(false);
            }
        }
        let j = g % logi;
        proof {
            vstd::bits::lemma_u64_pow2_no_overflow((j + 1) as nat);
            vstd::bits::lemma_u64_shl_is_mul(1u64, (j + 1) as u64);
        }
        let cap: u64 = 1u64 << (j + 1);
        let ku: u64 = k as u64;
        let jj: u64 = if vm + ku <= cap {
            vm + ku
        } else {
            cap
        };
        let lo: u64 = if jj / 2 >= 2 {
            jj / 2
        } else {
            2
        };
        let hi: u64 = jj + 1;
        proof {
            assert(jj >= 2) by {
                assert(vm + ku >= 2);
                assert(cap >= 2) by {
                    vstd::arithmetic::power2::lemma2_to64();
                    if j + 1 > 1 {
                        vstd::arithmetic::power2::lemma_pow2_strictly_increases(
                            1,
                            (j + 1) as nat,
                        );
                    }
                }
            }
            assert(lo < hi);
            assert(jj == drg_jj(seed8, node as int, m as int, k as int, prev));
        }
        let d = prg.gen_range_u64(lo, hi);
        proof {
            assert(prg.history_view() == drg_hist(
                seed8,
                node as int,
                m as int,
                (k + 1) as nat,
            )) by {
                assert(drg_hist(seed8, node as int, m as int, (k + 1) as nat) == prev.push(
                    -1i64,
                ) + seq![-2i64, drg_lo(jj as int) as i64, (jj + 1) as i64]);
            }
        }
        let diff: u64 = vm + ku - d;
        let outv: u64 = diff / (m as u64);
        proof {
            assert(outv <= node as u64) by {
                vstd::arithmetic::div_mod::lemma_div_is_ordered(
                    diff as int,
                    (vm + ku) as int,
                    m as int,
                );
                assert((vm + ku) as int / (m as int) == node) by {
                    vstd::arithmetic::div_mod::lemma_fundamental_div_mod_converse(
                        (vm + ku) as int,
                        m as int,
                        node as int,
                        k as int,
                    );
                }
            }
        }
        let parent: usize = if outv == node as u64 {
            node - 1
        } else {
            outv as usize
        };
        proof {
            assert(parent as int == drg_parent(seed8, node as int, m as int, k as nat));
            assert(forall|j: int|
                0 <= j < k ==> #[trigger] out@[j] == drg_parent(
                    seed8,
                    node as int,
                    m as int,
                    j as nat,
                ) as usize);
        }
        out.push(parent);
        k = k + 1;
    }
    let r = sort_vec(&out);
    proof {
        assert(out@ =~= drg_unsorted(seed8, node as int, m as nat));
        lemma_sort_seq_props(out@);
    }
    r
}


/// The Feistel key schedule of the expander, a fixed constant.
pub open spec fn graph_keys() -> Seq<u64> {
    seq![1u64, 2u64, 3u64, 4u64]
}

/// Half width of the Feistel padded domain for these parameters.
pub open spec fn graph_half_bits(nodes: int, ed: int) -> nat {
    feistel::half_bits_for((nodes * ed) as u64)
}

/// The candidate expander parent for slot `i` of node `v`: the permuted
/// slot index divided by the degree.
pub open spec fn exp_candidate(nodes: int, ed: int, v: int, i: int) -> int {
    (feistel::permute_spec(
        (nodes * ed) as u64,
        (v * ed + i) as u64,
        1u64,
        2u64,
        3u64,
        graph_half_bits(nodes, ed),
    ) as int) / ed
}

/// Whether slot `i` of node `v` carries a genuine expander edge.
pub open spec fn exp_slot_live(nodes: int, ed: int, v: int, i: int) -> bool {
    exp_candidate(nodes, ed, v, i) < v
}

/// The stored entry for slot `i` of node `v`: the candidate when it is a
/// genuine edge, the padding value 0 otherwise.
pub open spec fn exp_slot_spec(nodes: int, ed: int, v: int, i: int) -> usize {
    if exp_slot_live(nodes, ed, v, i) {
        exp_candidate(nodes, ed, v, i) as usize
    } else {
        0
    }
}

/// The stored expander row of node `v`.
pub open spec fn exp_row_spec(nodes: int, ed: int, v: int) -> Seq<usize> {
    Seq::new(ed as nat, |i: int| exp_slot_spec(nodes, ed, v, i))
}

/// A genuine expander edge from `v` to `w`.
pub open spec fn exp_edge(nodes: int, ed: int, v: int, w: int) -> bool {
    exists|i: int| 0 <= i < ed && #[trigger] exp_candidate(nodes, ed, v, i) == w && w < v
}

/// Build the stored expander row of one node.
fn expander_row(
    nodes: usize,
    e: usize,
    v: usize,
    keys: &Vec<u64>,
    fp: feistel::FeistelPrecomputed,
) -> (r: Vec<usize>)
    requires
        4 <= nodes <= 0x1_0000_0000,
        1 <= e <= crate::EXP_PARENTS,
        v < nodes,
        keys@ == graph_keys(),
        feistel::fp_ok(fp),
        (nodes * e) as u64 <= vstd::arithmetic::power2::pow2(2 * fp.half_bits as nat),
        fp.half_bits as nat == graph_half_bits(nodes as int, e as int),
    ensures
        r@ == exp_row_spec(nodes as int, e as int, v as int),
        r@.len() == e,
{
    proof {
        assert(4 <= (nodes as u64) * (e as u64) <= 0x8_0000_0000) by (nonlinear_arith)
            requires
                4 <= nodes <= 0x1_0000_0000,
                1 <= e <= 8,
        ;
    }
    let domain: u64 = (nodes as u64) * (e as u64);
    let mut r: Vec<usize> = Vec::new();
    let mut i: usize = 0;
    while i < e
        invariant
            4 <= nodes <= 0x1_0000_0000,
            1 <= e <= 8,
            v < nodes,
            keys@ == graph_keys(),
            feistel::fp_ok(fp),
            domain == (nodes as u64) * (e as u64),
            4 <= domain <= 0x8_0000_0000,
            domain <= vstd::arithmetic::power2::pow2(2 * fp.half_bits as nat),
            fp.half_bits as nat == graph_half_bits(nodes as int, e as int),
            i <= e,
            r@.len() == i,
            forall|j: int|
                0 <= j < i ==> #[trigger] r@[j] == exp_slot_spec(
                    nodes as int,
                    e as int,
                    v as int,
                    j,
                ),
        decreases e - i,
    {
        proof {
            assert((v as u64) * (e as u64) + (i as u64) < domain) by (nonlinear_arith)
                requires
                    v < nodes,
                    i < e,
                    domain == (nodes as u64) * (e as u64),
        ;
        }
        let idx: u64 = (v as u64) * (e as u64) + (i as u64);
        let p = feistel::permute(domain, idx, keys.as_slice(), fp);
        let cand: u64 = p / (e as u64);
        proof {
            assert(cand < nodes as u64) by (nonlinear_arith)
                requires
                    p < domain,
                    domain == (nodes as u64) * (e as u64),
                    e >= 1,
                    cand == p / (e as u64),
            ;
            assert(cand as int == exp_candidate(nodes as int, e as int, v as int, i as int));
        }
        let cu: usize = cand as usize;
        let slot: usize = if cu < v {
            cu
        } else {
            0
        };
        r.push(slot);
        i = i + 1;
    }
    proof {
        assert(r@ =~= exp_row_spec(nodes as int, e as int, v as int));
    }
    r
}


/// Appends of node `v` into the reversed row of `w`, over slots below `i`.
pub open spec fn rev_hits_upto(nodes: int, ed: int, v: int, w: int, i: nat) -> Seq<usize>
    decreases i,
{
    if i == 0 {
        Seq::<usize>::empty()
    } else {
        let pre = rev_hits_upto(nodes, ed, v, w, (i - 1) as nat);
        if exp_slot_live(nodes, ed, v, i - 1) && exp_candidate(nodes, ed, v, i - 1) == w {
            pre.push(v as usize)
        } else {
            pre
        }
    }
}

/// Entries of the reversed row of `w` contributed by nodes below `v`.
pub open spec fn rev_entries_upto(nodes: int, ed: int, w: int, v: nat) -> Seq<usize>
    decreases v,
{
    if v == 0 {
        Seq::<usize>::empty()
    } else {
        rev_entries_upto(nodes, ed, w, (v - 1) as nat) + rev_hits_upto(
            nodes,
            ed,
            v - 1,
            w,
            ed as nat,
        )
    }
}

/// All entries of the reversed row of `w`, in build order.
pub open spec fn rev_entries(nodes: int, ed: int, w: int) -> Seq<usize> {
    rev_entries_upto(nodes, ed, w, nodes as nat)
}

/// The stored reversed row: the entries, padded with zeros to the width.
pub open spec fn rev_row_spec(nodes: int, ed: int, w: int) -> Seq<usize> {
    rev_entries(nodes, ed, w) + Seq::new(
        (ed - rev_entries(nodes, ed, w).len()) as nat,
        |i: int| 0usize,
    )
}

/// Every reversed row fits its fixed width.
pub open spec fn rev_fits(nodes: int, ed: int) -> bool {
    forall|w: int| 0 <= w < nodes ==> #[trigger] rev_entries(nodes, ed, w).len() <= ed
}

/// The hits of one source row: each is the source, and one exists exactly
/// for an edge slot aimed at `w`.
proof fn lemma_rev_hits_members(nodes: int, ed: int, v: int, w: int, i: nat)
    requires
        0 <= v <= usize::MAX,
    ensures
        forall|y: usize|
            #[trigger] rev_hits_upto(nodes, ed, v, w, i).contains(y) ==> y == v,
        rev_hits_upto(nodes, ed, v, w, i).len() > 0 <==> exists|s: int|
            0 <= s < i && #[trigger] exp_candidate(nodes, ed, v, s) == w && w < v,
    decreases i,
{
    if i == 0 {
    } else {
        lemma_rev_hits_members(nodes, ed, v, w, (i - 1) as nat);
        let pre = rev_hits_upto(nodes, ed, v, w, (i - 1) as nat);
        let cur = rev_hits_upto(nodes, ed, v, w, i);
        if exp_slot_live(nodes, ed, v, i - 1) && exp_candidate(nodes, ed, v, i - 1) == w {
            assert(cur == pre.push(v as usize));
            assert forall|y: usize| #[trigger] cur.contains(y) implies y == v by {
                let j = choose|j: int| 0 <= j < cur.len() && cur[j] == y;
                if j < pre.len() {
                    assert(pre[j] == y);
                    assert(pre.contains(y));
                } else {
                    assert(cur[j] == v as usize);
                }
            }
            assert(cur.len() > 0);
            assert(exp_candidate(nodes, ed, v, i - 1) == w && w < v);
        } else {
            assert(cur == pre);
            if cur.len() > 0 {
                let s = choose|s: int|
                    0 <= s < i - 1 && #[trigger] exp_candidate(nodes, ed, v, s) == w && w < v;
                assert(0 <= s < i && exp_candidate(nodes, ed, v, s) == w && w < v);
            }
            if exists|s: int|
                0 <= s < i && #[trigger] exp_candidate(nodes, ed, v, s) == w && w < v {
                let s = choose|s: int|
                    0 <= s < i && #[trigger] exp_candidate(nodes, ed, v, s) == w && w < v;
                assert(s != i - 1);
            }
        }
    }
}

/// Membership in the reversed entries is exactly having an edge into `w`.
pub proof fn lemma_rev_entries_members(nodes: int, ed: int, w: int, v: nat)
    requires
        v <= usize::MAX,
        0 <= ed,
    ensures
        forall|y: usize|
            #[trigger] rev_entries_upto(nodes, ed, w, v).contains(y) <==> (y < v && exp_edge(
                nodes,
                ed,
                y as int,
                w,
            )),
    decreases v,
{
    if v == 0 {
    } else {
        lemma_rev_entries_members(nodes, ed, w, (v - 1) as nat);
        lemma_rev_hits_members(nodes, ed, v - 1, w, ed as nat);
        let pre = rev_entries_upto(nodes, ed, w, (v - 1) as nat);
        let hits = rev_hits_upto(nodes, ed, v - 1, w, ed as nat);
        let cur = rev_entries_upto(nodes, ed, w, v);
        assert(cur == pre + hits);
        assert forall|y: usize| #[trigger] cur.contains(y) implies (y < v && exp_edge(
            nodes,
            ed,
            y as int,
            w,
        )) by {
            let j = choose|j: int| 0 <= j < cur.len() && cur[j] == y;
            if j < pre.len() {
                assert(pre[j] == y);
                assert(pre.contains(y));
            } else {
                assert(hits[j - pre.len()] == y);
                assert(hits.contains(y));
                assert(y == v - 1);
                assert(hits.len() > 0);
                let s = choose|s: int|
                    0 <= s < ed && #[trigger] exp_candidate(nodes, ed, v - 1, s) == w && w < v
                        - 1;
                assert(exp_candidate(nodes, ed, y as int, s) == w);
                assert(exp_edge(nodes, ed, y as int, w));
            }
        }
        assert forall|y: usize|
            (y < v && exp_edge(nodes, ed, y as int, w)) implies #[trigger] cur.contains(y) by {
            if y < v - 1 {
                assert(pre.contains(y));
                let j = choose|j: int| 0 <= j < pre.len() && pre[j] == y;
                assert(cur[j] == y);
            } else {
                assert(y == v - 1);
                let s = choose|s: int|
                    0 <= s < ed && #[trigger] exp_candidate(nodes, ed, y as int, s) == w && w
                        < y;
                assert(hits.len() > 0) by {
                    assert(0 <= s < ed && exp_candidate(nodes, ed, v - 1, s) == w && w < v - 1);
                }
                assert(hits.contains(hits[0]));
                assert(hits[0] == (v - 1) as usize);
                assert(cur[pre.len() as int] == hits[0]);
            }
        }
    }
}

/// The hits of a row only grow with the slot bound.
proof fn lemma_rev_hits_mono(nodes: int, ed: int, v: int, w: int, i1: nat, i2: nat)
    requires
        i1 <= i2,
    ensures
        rev_hits_upto(nodes, ed, v, w, i1).len() <= rev_hits_upto(nodes, ed, v, w, i2).len(),
    decreases i2,
{
    if i1 < i2 {
        lemma_rev_hits_mono(nodes, ed, v, w, i1, (i2 - 1) as nat);
    }
}

/// The reversed entries only grow with the node bound.
proof fn lemma_rev_entries_mono(nodes: int, ed: int, w: int, v1: nat, v2: nat)
    requires
        v1 <= v2,
    ensures
        rev_entries_upto(nodes, ed, w, v1).len() <= rev_entries_upto(nodes, ed, w, v2).len(),
    decreases v2,
{
    if v1 < v2 {
        lemma_rev_entries_mono(nodes, ed, w, v1, (v2 - 1) as nat);
    }
}


/// All-zero row of the given width.
pub open spec fn zero_row(n: nat) -> Seq<usize> {
    Seq::new(n, |i: int| 0usize)
}

/// The reversed row of `w` while the builder stands at node `v`, slot `i`.
pub open spec fn rev_state(nodes: int, ed: int, w: int, v: int, i: nat) -> Seq<usize> {
    rev_entries_upto(nodes, ed, w, v as nat) + rev_hits_upto(nodes, ed, v, w, i)
}

/// Build the reversed expander rows; fails when a row overflows its
/// fixed width.
fn build_reversed(
    nodes: usize,
    e: usize,
    keys: &Vec<u64>,
    fp: feistel::FeistelPrecomputed,
) -> (r: Result<Vec<Vec<usize>>, Error>)
    requires
        4 <= nodes <= 0x1_0000_0000,
        1 <= e <= crate::EXP_PARENTS,
        keys@ == graph_keys(),
        feistel::fp_ok(fp),
        (nodes * e) as u64 <= vstd::arithmetic::power2::pow2(2 * fp.half_bits as nat),
        fp.half_bits as nat == graph_half_bits(nodes as int, e as int),
    ensures
        r is Ok <==> rev_fits(nodes as int, e as int),
        r is Err ==> r == Err::<Vec<Vec<usize>>, Error>(Error::Integrity),
        r is Ok ==> {
            &&& r->Ok_0@.len() == nodes
            &&& forall|w: int|
                0 <= w < nodes ==> #[trigger] r->Ok_0@[w]@ == rev_row_spec(
                    nodes as int,
                    e as int,
                    w,
                )
        },
{
    proof {
        assert(4 <= (nodes as u64) * (e as u64) <= 0x8_0000_0000) by (nonlinear_arith)
            requires
                4 <= nodes <= 0x1_0000_0000,
                1 <= e <= 8,
        ;
    }
    let domain: u64 = (nodes as u64) * (e as u64);
    let mut rev: Vec<Vec<usize>> = Vec::new();
    let mut fills: Vec<usize> = Vec::new();
    let mut w: usize = 0;
    while w < nodes
        invariant
            w <= nodes,
            rev@.len() == w,
            fills@.len() == w,
            forall|u: int| 0 <= u < w ==> #[trigger] rev@[u]@ == zero_row(e as nat),
            forall|u: int| 0 <= u < w ==> #[trigger] fills@[u] == 0usize,
        decreases nodes - w,
    {
        let mut row: Vec<usize> = Vec::new();
        let mut i: usize = 0;
        while i < e
            invariant
                i <= e,
                row@.len() == i,
                forall|j: int| 0 <= j < i ==> #[trigger] row@[j] == 0usize,
            decreases e - i,
        {
            row.push(0);
            i = i + 1;
        }
        proof {
            assert(row@ =~= zero_row(e as nat));
        }
        rev.push(row);
        fills.push(0);
        w = w + 1;
    }
    let mut v: usize = 0;
    while v < nodes
        invariant
            4 <= nodes <= 0x1_0000_0000,
            1 <= e <= 8,
            keys@ == graph_keys(),
            feistel::fp_ok(fp),
            domain == (nodes as u64) * (e as u64),
            4 <= domain <= 0x8_0000_0000,
            domain <= vstd::arithmetic::power2::pow2(2 * fp.half_bits as nat),
            fp.half_bits as nat == graph_half_bits(nodes as int, e as int),
            v <= nodes,
            rev@.len() == nodes,
            fills@.len() == nodes,
            forall|u: int|
                0 <= u < nodes ==> #[trigger] fills@[u] == rev_state(
                    nodes as int,
                    e as int,
                    u,
                    v as int,
                    0,
                ).len(),
            forall|u: int| 0 <= u < nodes ==> #[trigger] fills@[u] <= e,
            forall|u: int|
                0 <= u < nodes ==> #[trigger] rev@[u]@ == rev_state(
                    nodes as int,
                    e as int,
                    u,
                    v as int,
                    0,
                ) + zero_row((e - fills@[u]) as nat),
        decreases nodes - v,
    {
        let mut i: usize = 0;
        while i < e
            invariant
                4 <= nodes <= 0x1_0000_0000,
                1 <= e <= 8,
                keys@ == graph_keys(),
                feistel::fp_ok(fp),
                domain == (nodes as u64) * (e as u64),
                4 <= domain <= 0x8_0000_0000,
                domain <= vstd::arithmetic::power2::pow2(2 * fp.half_bits as nat),
                fp.half_bits as nat == graph_half_bits(nodes as int, e as int),
                v < nodes,
                i <= e,
                rev@.len() == nodes,
                fills@.len() == nodes,
                forall|u: int|
                    0 <= u < nodes ==> #[trigger] fills@[u] == rev_state(
                        nodes as int,
                        e as int,
                        u,
                        v as int,
                        i as nat,
                    ).len(),
                forall|u: int| 0 <= u < nodes ==> #[trigger] fills@[u] <= e,
                forall|u: int|
                    0 <= u < nodes ==> #[trigger] rev@[u]@ == rev_state(
                        nodes as int,
                        e as int,
                        u,
                        v as int,
                        i as nat,
                    ) + zero_row((e - fills@[u]) as nat),
            decreases e - i,
        {
            proof {
                assert((v as u64) * (e as u64) + (i as u64) < domain) by (nonlinear_arith)
                    requires
                        v < nodes,
                        i < e,
                        domain == (nodes as u64) * (e as u64),
                ;
            }
            let idx: u64 = (v as u64) * (e as u64) + (i as u64);
            let p = feistel::permute(domain, idx, keys.as_slice(), fp);
            let cand: u64 = p / (e as u64);
            proof {
                assert(cand < nodes as u64) by (nonlinear_arith)
                    requires
                        p < domain,
                        domain == (nodes as u64) * (e as u64),
                        e >= 1,
                        cand == p / (e as u64),
                ;
                assert(cand as int == exp_candidate(nodes as int, e as int, v as int, i as int));
            }
            let cu: usize = cand as usize;
            if cu < v {
                proof {
                    assert(exp_slot_live(nodes as int, e as int, v as int, i as int));
                }
                let f = fills[cu];
                let ghost st = rev_state(nodes as int, e as int, cu as int, v as int, i as nat);
                proof {
                    assert(rev_hits_upto(nodes as int, e as int, v as int, cu as int, (i + 1) as nat)
                        == rev_hits_upto(nodes as int, e as int, v as int, cu as int, i as nat).push(
                        v as usize,
                    ));
                }
                if f == e {
                    proof {
                        let ni = nodes as int;
                        let ei = e as int;
                        let ci = cu as int;
                        assert(rev_state(ni, ei, ci, v as int, (i + 1) as nat).len() == e + 1);
                        lemma_rev_hits_mono(ni, ei, v as int, ci, (i + 1) as nat, e as nat);
                        assert(rev_entries_upto(ni, ei, ci, (v + 1) as nat).len() >= e + 1);
                        lemma_rev_entries_mono(ni, ei, ci, (v + 1) as nat, nodes as nat);
                        assert(rev_entries(ni, ei, ci).len() >= e + 1);
                        assert(!rev_fits(ni, ei));
                    }
                    return Err(Error::Integrity);
                }
                let mut row = rev[cu].clone();
                proof {
                    assert(row@ =~= rev@[cu as int]@);
                }
                row.set(f, v);
                let ghost old_rev = rev@;
                rev.set(cu, row);
                let ghost old_fills = fills@;
                fills.set(cu, f + 1);
                proof {
                    let ni = nodes as int;
                    let ei = e as int;
                    assert forall|u: int| 0 <= u < nodes implies #[trigger] fills@[u] == rev_state(
                        ni,
                        ei,
                        u,
                        v as int,
                        (i + 1) as nat,
                    ).len() && fills@[u] <= e && rev@[u]@ == rev_state(
                        ni,
                        ei,
                        u,
                        v as int,
                        (i + 1) as nat,
                    ) + zero_row((e - fills@[u]) as nat) by {
                        if u == cu {
                            assert(rev_state(ni, ei, u, v as int, (i + 1) as nat) == st.push(
                                v as usize,
                            ));
                            assert(rev@[u]@ == (st + zero_row((e - f) as nat)).update(
                                f as int,
                                v as usize,
                            ));
                            assert((st + zero_row((e - f) as nat)).update(f as int, v as usize)
                                =~= st.push(v as usize) + zero_row((e - (f + 1)) as nat));
                        } else {
                            assert(rev_hits_upto(ni, ei, v as int, u, (i + 1) as nat)
                                == rev_hits_upto(ni, ei, v as int, u, i as nat)) by {
                                assert(exp_candidate(ni, ei, v as int, i as int) == cu as int);
                            }
                            assert(old_rev[u]@ == rev@[u]@);
                            assert(old_fills[u] == fills@[u]);
                        }
                    }
                }
            } else {
                proof {
                    let ni = nodes as int;
                    let ei = e as int;
                    assert(!exp_slot_live(ni, ei, v as int, i as int));
                    assert forall|u: int| 0 <= u < nodes implies rev_state(
                        ni,
                        ei,
                        u,
                        v as int,
                        (i + 1) as nat,
                    ) == rev_state(ni, ei, u, v as int, i as nat) by {
                        assert(rev_hits_upto(ni, ei, v as int, u, (i + 1) as nat)
                            == rev_hits_upto(ni, ei, v as int, u, i as nat));
                    }
                }
            }
            i = i + 1;
        }
        proof {
            let ni = nodes as int;
            let ei = e as int;
            assert forall|u: int| 0 <= u < nodes implies rev_state(
                ni,
                ei,
                u,
                (v + 1) as int,
                0,
            ) == rev_state(ni, ei, u, v as int, e as nat) by {
                assert(rev_entries_upto(ni, ei, u, (v + 1) as nat) == rev_entries_upto(
                    ni,
                    ei,
                    u,
                    v as nat,
                ) + rev_hits_upto(ni, ei, v as int, u, e as nat));
                assert(rev_hits_upto(ni, ei, (v + 1) as int, u, 0) == Seq::<usize>::empty());
                assert(rev_state(ni, ei, u, (v + 1) as int, 0) =~= rev_state(
                    ni,
                    ei,
                    u,
                    v as int,
                    e as nat,
                ));
            }
        }
        v = v + 1;
    }
    proof {
        let ni = nodes as int;
        let ei = e as int;
        assert forall|u: int| 0 <= u < nodes implies #[trigger] rev_entries(ni, ei, u).len()
            <= e && rev@[u]@ == rev_row_spec(ni, ei, u) by {
            assert(rev_state(ni, ei, u, nodes as int, 0) =~= rev_entries(ni, ei, u));
            assert(fills@[u] == rev_entries(ni, ei, u).len());
            assert(rev@[u]@ =~= rev_row_spec(ni, ei, u));
        }
    }
    Ok(rev)
}

/// A graph: its settings and the cached parent rows.
#[derive(Debug, PartialEq, Eq)]
pub struct Graph {
    pub nodes: usize,
    pub base_degree: usize,
    pub expansion_degree: usize,
    pub seed: [u32; 7],
    pub bas: Vec<Vec<usize>>,
    pub exp: Vec<Vec<usize>>,
    pub exp_reversed: Vec<Vec<usize>>,
}

impl Graph {
    /// The per-node seed words: the graph seed followed by the node index.
    pub open spec fn node_seed(&self, v: int) -> Seq<u32> {
        self.seed@.push(v as u32)
    }

    /// Every base row is exactly the sampled, sorted row.
    pub open spec fn wf_base(&self) -> bool {
        &&& self.bas@.len() == self.nodes
        &&& forall|v: int|
            0 <= v < self.nodes ==> #[trigger] self.bas@[v]@ == bas_row_spec(
                self.node_seed(v),
                v,
                self.base_degree as nat,
            )
    }

    /// Every expander row is exactly the permuted, filtered row.
    pub open spec fn wf_exp(&self) -> bool {
        &&& self.exp@.len() == self.nodes
        &&& forall|v: int|
            0 <= v < self.nodes ==> #[trigger] self.exp@[v]@ == exp_row_spec(
                self.nodes as int,
                self.expansion_degree as int,
                v,
            )
    }

    /// Every reversed row lists exactly the sources of the edges into it,
    /// in build order, padded with zeros to the fixed width.
    pub open spec fn wf_rev(&self) -> bool {
        &&& self.exp_reversed@.len() == self.nodes
        &&& forall|w: int|
            0 <= w < self.nodes ==> rev_entries(
                self.nodes as int,
                self.expansion_degree as int,
                w,
            ).len() <= self.expansion_degree
        &&& forall|w: int|
            0 <= w < self.nodes ==> #[trigger] self.exp_reversed@[w]@ == rev_row_spec(
                self.nodes as int,
                self.expansion_degree as int,
                w,
            )
    }

    /// A fully built graph.
    pub open spec fn wf(&self) -> bool {
        &&& params_ok(self.nodes, self.base_degree, self.expansion_degree)
        &&& self.wf_base()
        &&& self.wf_exp()
        &&& self.wf_rev()
    }

    /// Create a graph with the given settings and no cached parents yet.
    pub fn new(nodes: usize, base_degree: usize, expansion_degree: usize, seed: [u32; 7]) -> (g:
        Graph)
        ensures
            g.nodes == nodes,
            g.base_degree == base_degree,
            g.expansion_degree == expansion_degree,
            g.seed@ == seed@,
            g.bas@.len() == nodes,
            g.exp@.len() == nodes,
            g.exp_reversed@.len() == nodes,
            forall|v: int| 0 <= v < nodes ==> #[trigger] g.bas@[v]@.len() == 0,
            forall|v: int| 0 <= v < nodes ==> #[trigger] g.exp@[v]@.len() == 0,
            forall|v: int| 0 <= v < nodes ==> #[trigger] g.exp_reversed@[v]@.len() == 0,
    {
        let mut bas: Vec<Vec<usize>> = Vec::new();
        let mut exp: Vec<Vec<usize>> = Vec::new();
        let mut exp_reversed: Vec<Vec<usize>> = Vec::new();
        let mut v: usize = 0;
        while v < nodes
            invariant
                v <= nodes,
                bas@.len() == v,
                exp@.len() == v,
                exp_reversed@.len() == v,
                forall|u: int| 0 <= u < v ==> #[trigger] bas@[u]@.len() == 0,
                forall|u: int| 0 <= u < v ==> #[trigger] exp@[u]@.len() == 0,
                forall|u: int| 0 <= u < v ==> #[trigger] exp_reversed@[u]@.len() == 0,
            decreases nodes - v,
        {
            bas.push(Vec::new());
            exp.push(Vec::new());
            exp_reversed.push(Vec::new());
            v = v + 1;
        }
        Graph { nodes, base_degree, expansion_degree, seed, bas, exp, exp_reversed }
    }

    /// Number of parents of every node: base degree plus expander degree.
    pub fn degree(&self) -> (r: usize)
        requires
            self.base_degree + self.expansion_degree <= usize::MAX,
        ensures
            r == self.base_degree + self.expansion_degree,
    {
        self.base_degree + self.expansion_degree
    }

    /// Generate and cache the base, expander and reversed parent rows.
    /// Fails, leaving the graph unchanged, exactly when some reversed row
    /// would overflow its fixed width.
    pub fn gen_parents_cache(&mut self) -> (r: Result<(), Error>)
        requires
            params_ok(old(self).nodes, old(self).base_degree, old(self).expansion_degree),
        ensures
            final(self).nodes == old(self).nodes,
            final(self).base_degree == old(self).base_degree,
            final(self).expansion_degree == old(self).expansion_degree,
            final(self).seed@ == old(self).seed@,
            r is Ok <==> rev_fits(old(self).nodes as int, old(self).expansion_degree as int),
            r is Ok ==> final(self).wf(),
            r is Err ==> *final(self) == *old(self) && r == Err::<(), Error>(Error::Integrity),
    {
        let nodes = self.nodes;
        let m = self.base_degree;
        let e = self.expansion_degree;
        proof {
            assert(4 <= (nodes as u64) * (e as u64) <= 0x8_0000_0000) by (nonlinear_arith)
                requires
                    4 <= nodes <= 0x1_0000_0000,
                    1 <= e <= 8,
            ;
        }
        let domain: u64 = (nodes as u64) * (e as u64);
        let fp = feistel::precompute(domain);
        let mut keys: Vec<u64> = Vec::new();
        keys.push(1);
        keys.push(2);
        keys.push(3);
        keys.push(4);
        proof {
            assert(keys@ =~= graph_keys());
        }
        let rev = match build_reversed(nodes, e, &keys, fp) {
            Ok(rev) => rev,
            Err(er) => {
                return Err(er);
            },
        };
        let mut bas: Vec<Vec<usize>> = Vec::new();
        let mut exp: Vec<Vec<usize>> = Vec::new();
        let mut v: usize = 0;
        while v < nodes
            invariant
                params_ok(nodes, m, e),
                nodes == self.nodes,
                m == self.base_degree,
                e == self.expansion_degree,
                keys@ == graph_keys(),
                feistel::fp_ok(fp),
                domain == (nodes as u64) * (e as u64),
                domain <= vstd::arithmetic::power2::pow2(2 * fp.half_bits as nat),
                fp.half_bits as nat == graph_half_bits(nodes as int, e as int),
                v <= nodes,
                bas@.len() == v,
                exp@.len() == v,
                forall|u: int|
                    0 <= u < v ==> #[trigger] bas@[u]@ == bas_row_spec(
                        self.seed@.push(u as u32),
                        u,
                        m as nat,
                    ),
                forall|u: int|
                    0 <= u < v ==> #[trigger] exp@[u]@ == exp_row_spec(nodes as int, e as int, u),
            decreases nodes - v,
        {
            let brow = bucketsample_parents(&self.seed, v, m);
            bas.push(brow);
            let erow = expander_row(nodes, e, v, &keys, fp);
            exp.push(erow);
            v = v + 1;
        }
        self.bas = bas;
        self.exp = exp;
        self.exp_reversed = rev;
        Ok(())
    }


    /// Validate the parameters, then build the graph and its parent cache.
    /// Rejects impossible parameters with a configuration error; an
    /// overflowing reversed row is an integrity error.
    pub fn build(nodes: usize, base_degree: usize, expansion_degree: usize, seed: [u32; 7]) -> (r:
        Result<Graph, Error>)
        ensures
            r is Ok <==> (params_ok(nodes, base_degree, expansion_degree) && rev_fits(
                nodes as int,
                expansion_degree as int,
            )),
            !params_ok(nodes, base_degree, expansion_degree) ==> r == Err::<Graph, Error>(
                Error::Config,
            ),
            params_ok(nodes, base_degree, expansion_degree) && !rev_fits(
                nodes as int,
                expansion_degree as int,
            ) ==> r == Err::<Graph, Error>(Error::Integrity),
            r is Ok ==> {
                &&& r->Ok_0.wf()
                &&& r->Ok_0.nodes == nodes
                &&& r->Ok_0.base_degree == base_degree
                &&& r->Ok_0.expansion_degree == expansion_degree
                &&& r->Ok_0.seed@ == seed@
            },
    {
        if (nodes as u64) < 4 || (nodes as u64) > 0xffff_ffffu64 || base_degree < 1
            || base_degree > crate::BASE_PARENTS || expansion_degree < 1 || expansion_degree
            > crate::EXP_PARENTS {
            return Err(Error::Config);
        }
        let mut g = Graph::new(nodes, base_degree, expansion_degree, seed);
        match g.gen_parents_cache() {
            Ok(_u) => Ok(g),
            Err(er) => Err(er),
        }
    }

    /// Recompute the reversed expander rows from the permutation alone; on
    /// a well-formed graph the result equals the stored rows.
    pub fn recompute_exp_reversed(&self) -> (r: Result<Vec<Vec<usize>>, Error>)
        requires
            self.wf(),
        ensures
            r is Ok,
            r->Ok_0@.len() == self.exp_reversed@.len(),
            forall|w: int|
                0 <= w < self.exp_reversed@.len() ==> #[trigger] r->Ok_0@[w]@
                    == self.exp_reversed@[w]@,
    {
        let nodes = self.nodes;
        let e = self.expansion_degree;
        proof {
            assert(4 <= (nodes as u64) * (e as u64) <= 0x8_0000_0000) by (nonlinear_arith)
                requires
                    4 <= nodes <= 0x1_0000_0000,
                    1 <= e <= 8,
            ;
        }
        let domain: u64 = (nodes as u64) * (e as u64);
        let fp = feistel::precompute(domain);
        let mut keys: Vec<u64> = Vec::new();
        keys.push(1);
        keys.push(2);
        keys.push(3);
        keys.push(4);
        proof {
            assert(keys@ =~= graph_keys());
        }
        let r = build_reversed(nodes, e, &keys, fp);
        match r {
            Ok(rev) => Ok(rev),
            Err(er) => {
                proof {
                    assert(rev_fits(nodes as int, e as int));
                    assert(false);
                }
                Err(er)
            },
        }
    }

    /// The forward parent view of a node: base parents then expander
    /// parents, in the order the encoder hashes them.
    pub fn parents(&self, node: usize, parents: &mut Vec<usize>)
        requires
            self.wf(),
            node < self.nodes,
            old(parents)@.len() == self.base_degree + self.expansion_degree,
        ensures
            final(parents)@ == self.bas@[node as int]@ + self.exp@[node as int]@,
    {
        let m = self.base_degree;
        let e = self.expansion_degree;
        proof {
            lemma_row_lens(self, node as int);
        }
        let mut k: usize = 0;
        while k < m
            invariant
                self.wf(),
                node < self.nodes,
                m == self.base_degree,
                e == self.expansion_degree,
                self.bas@[node as int]@.len() == m,
                self.exp@[node as int]@.len() == e,
                parents@.len() == m + e,
                k <= m,
                forall|j: int| 0 <= j < k ==> #[trigger] parents@[j] == self.bas@[node as int]@[j],
            decreases m - k,
        {
            let x = self.bas[node][k];
            parents.set(k, x);
            k = k + 1;
        }
        let mut i: usize = 0;
        while i < e
            invariant
                self.wf(),
                node < self.nodes,
                m == self.base_degree,
                e == self.expansion_degree,
                self.bas@[node as int]@.len() == m,
                self.exp@[node as int]@.len() == e,
                parents@.len() == m + e,
                i <= e,
                forall|j: int| 0 <= j < m ==> #[trigger] parents@[j] == self.bas@[node as int]@[j],
                forall|j: int|
                    m <= j < m + i ==> #[trigger] parents@[j] == self.exp@[node as int]@[j - m],
            decreases e - i,
        {
            let x = self.exp[node][i];
            parents.set(m + i, x);
            i = i + 1;
        }
        proof {
            assert(parents@ =~= self.bas@[node as int]@ + self.exp@[node as int]@);
        }
    }

    /// The reverse parent view of a node: the mirrored base parents of the
    /// opposite node, then the reversed expander row.
    pub fn parents_reversed(&self, node: usize, parents: &mut Vec<usize>)
        requires
            self.wf(),
            node < self.nodes,
            old(parents)@.len() == self.base_degree + self.expansion_degree,
        ensures
            final(parents)@ == rev_view_spec(self, node as int),
    {
        let m = self.base_degree;
        let e = self.expansion_degree;
        let nodes = self.nodes;
        let mirror: usize = nodes - node - 1;
        proof {
            lemma_row_lens(self, mirror as int);
            lemma_base_row_entries_below_nodes(self, mirror as int);
        }
        let mut k: usize = 0;
        while k < m
            invariant
                self.wf(),
                node < nodes,
                nodes == self.nodes,
                mirror == nodes - node - 1,
                m == self.base_degree,
                e == self.expansion_degree,
                self.bas@[mirror as int]@.len() == m,
                self.exp_reversed@[node as int]@.len() == e,
                forall|j: int|
                    0 <= j < m ==> #[trigger] self.bas@[mirror as int]@[j] < self.nodes,
                parents@.len() == m + e,
                k <= m,
                forall|j: int|
                    0 <= j < k ==> #[trigger] parents@[j] == (self.nodes
                        - self.bas@[mirror as int]@[j] - 1) as usize,
            decreases m - k,
        {
            let b = self.bas[mirror][k];
            parents.set(k, nodes - b - 1);
            k = k + 1;
        }
        let mut i: usize = 0;
        while i < e
            invariant
                self.wf(),
                node < nodes,
                nodes == self.nodes,
                mirror == nodes - node - 1,
                m == self.base_degree,
                e == self.expansion_degree,
                self.bas@[mirror as int]@.len() == m,
                self.exp_reversed@[node as int]@.len() == e,
                parents@.len() == m + e,
                i <= e,
                forall|j: int|
                    0 <= j < m ==> #[trigger] parents@[j] == (self.nodes
                        - self.bas@[mirror as int]@[j] - 1) as usize,
                forall|j: int|
                    m <= j < m + i ==> #[trigger] parents@[j] == self.exp_reversed@[node as int]@[j
                        - m],
            decreases e - i,
        {
            let x = self.exp_reversed[node][i];
            parents.set(m + i, x);
            i = i + 1;
        }
        proof {
            assert(parents@ =~= rev_view_spec(self, node as int));
        }
    }
}


/// The forward parent view: base row then expander row.
pub open spec fn fwd_view_spec(g: &Graph, v: int) -> Seq<usize> {
    g.bas@[v]@ + g.exp@[v]@
}

/// The reverse parent view: the mirrored base row of the opposite node,
/// then the reversed expander row.
pub open spec fn rev_view_spec(g: &Graph, v: int) -> Seq<usize> {
    Seq::new(
        g.base_degree as nat,
        |k: int| (g.nodes - g.bas@[g.nodes - v - 1]@[k] - 1) as usize,
    ) + g.exp_reversed@[v]@
}

/// Row lengths of a well-formed graph.
pub proof fn lemma_row_lens(g: &Graph, v: int)
    requires
        g.wf(),
        0 <= v < g.nodes,
    ensures
        g.bas@[v]@.len() == g.base_degree,
        g.exp@[v]@.len() == g.expansion_degree,
        g.exp_reversed@[v]@.len() == g.expansion_degree,
{
    assert(g.bas@[v]@ == bas_row_spec(g.node_seed(v), v, g.base_degree as nat));
    if v >= 2 {
        lemma_sort_seq_props(drg_unsorted(g.node_seed(v), v, g.base_degree as nat));
    }
    assert(g.exp_reversed@[v]@ == rev_row_spec(g.nodes as int, g.expansion_degree as int, v));
    assert(rev_entries(g.nodes as int, g.expansion_degree as int, v).len()
        <= g.expansion_degree);
}

/// Base-row entries of a well-formed graph are below the node count.
pub proof fn lemma_base_row_entries_below_nodes(g: &Graph, v: int)
    requires
        g.wf(),
        0 <= v < g.nodes,
    ensures
        forall|j: int|
            0 <= j < g.bas@[v]@.len() ==> (#[trigger] g.bas@[v]@[j]) < g.nodes,
{
    lemma_base_parents_entries(g, v);
}

/// Base-row entries: zero for the first two nodes, else strictly below
/// the node.
pub proof fn lemma_base_parents_entries(g: &Graph, v: int)
    requires
        g.wf(),
        0 <= v < g.nodes,
    ensures
        v < 2 ==> forall|j: int|
            0 <= j < g.bas@[v]@.len() ==> (#[trigger] g.bas@[v]@[j]) == 0usize,
        v >= 2 ==> forall|j: int|
            0 <= j < g.bas@[v]@.len() ==> (#[trigger] g.bas@[v]@[j]) < v,
        forall|j: int|
            0 <= j < g.bas@[v]@.len() ==> (#[trigger] g.bas@[v]@[j]) < g.nodes,
{
    let m = g.base_degree as nat;
    let s8 = g.node_seed(v);
    assert(g.bas@[v]@ == bas_row_spec(s8, v, m));
    if v >= 2 {
        let uns = drg_unsorted(s8, v, m as nat);
        lemma_sort_seq_props(uns);
        assert forall|j: int|
            0 <= j < g.bas@[v]@.len() implies (#[trigger] g.bas@[v]@[j]) < v by {
            let y = sort_seq(uns)[j];
            assert(sort_seq(uns).contains(y));
            assert(uns.contains(y));
            let k = choose|k: int| 0 <= k < uns.len() && uns[k] == y;
            assert(uns[k] == drg_parent(s8, v, m as int, k as nat) as usize);
            lemma_drg_parent_bound(s8, v, m as int, k as nat);
        }
    }
}

/// Base parents of a node `v >= 2` are sorted ascending and strictly
/// below `v`.
pub proof fn lemma_base_parents_bounded(g: &Graph, v: int)
    requires
        g.wf(),
        2 <= v < g.nodes,
    ensures
        sorted_asc(g.bas@[v]@),
        forall|k: int| 0 <= k < g.bas@[v]@.len() ==> (#[trigger] g.bas@[v]@[k]) < v,
{
    let s8 = g.node_seed(v);
    let m = g.base_degree as nat;
    assert(g.bas@[v]@ == bas_row_spec(s8, v, m));
    lemma_sort_seq_props(drg_unsorted(s8, v, m));
    lemma_base_parents_entries(g, v);
}

/// Expander entries never exceed the node; a live slot is strictly below,
/// and a dead slot holds the padding value 0.
pub proof fn lemma_exp_parents_bounded(g: &Graph, v: int)
    requires
        g.wf(),
        0 <= v < g.nodes,
    ensures
        forall|i: int| 0 <= i < g.exp@[v]@.len() ==> (#[trigger] g.exp@[v]@[i]) <= v,
        forall|i: int|
            0 <= i < g.exp@[v]@.len() ==> ((#[trigger] g.exp@[v]@[i]) > 0 ==> g.exp@[v]@[i]
                < v),
{
    let ni = g.nodes as int;
    let ei = g.expansion_degree as int;
    assert(g.exp@[v]@ == exp_row_spec(ni, ei, v));
    assert forall|i: int|
        0 <= i < g.exp@[v]@.len() implies (#[trigger] g.exp@[v]@[i]) <= v && (g.exp@[v]@[i] > 0
        ==> g.exp@[v]@[i] < v) by {
        assert(g.exp@[v]@[i] == exp_slot_spec(ni, ei, v, i));
    }
}

/// The reversed adjacency is a faithful inverse: there is an expander
/// edge from `v` to `w` exactly when `v` stands in the reversed row of
/// `w`.
pub proof fn lemma_exp_reversed_faithful(g: &Graph, v: int, w: int)
    requires
        g.wf(),
        0 <= v < g.nodes,
        0 <= w < g.nodes,
    ensures
        exp_edge(g.nodes as int, g.expansion_degree as int, v, w) <==> (v >= 1
            && g.exp_reversed@[w]@.contains(v as usize)),
{
    let ni = g.nodes as int;
    let ei = g.expansion_degree as int;
    assert(g.exp_reversed@[w]@ == rev_row_spec(ni, ei, w));
    let entries = rev_entries(ni, ei, w);
    let pad = Seq::new((ei - entries.len()) as nat, |i: int| 0usize);
    lemma_rev_entries_members(ni, ei, w, g.nodes as nat);
    if exp_edge(ni, ei, v, w) {
        assert(w < v) by {
            let s = choose|s: int|
                0 <= s < ei && #[trigger] exp_candidate(ni, ei, v, s) == w && w < v;
        }
        assert(entries.contains(v as usize));
        let j = choose|j: int| 0 <= j < entries.len() && entries[j] == v as usize;
        assert(g.exp_reversed@[w]@[j] == v as usize);
        assert(g.exp_reversed@[w]@.contains(v as usize));
    }
    if v >= 1 && g.exp_reversed@[w]@.contains(v as usize) {
        let j = choose|j: int|
            0 <= j < g.exp_reversed@[w]@.len() && g.exp_reversed@[w]@[j] == v as usize;
        if j < entries.len() {
            assert(entries[j] == v as usize);
            assert(entries.contains(v as usize));
        } else {
            assert(g.exp_reversed@[w]@[j] == pad[j - entries.len()]);
            assert(false);
        }
    }
}

/// Two well-formed graphs with the same parameters and seed hold the same
/// rows: construction is deterministic.
pub proof fn lemma_graph_deterministic(a: &Graph, b: &Graph)
    requires
        a.wf(),
        b.wf(),
        a.nodes == b.nodes,
        a.base_degree == b.base_degree,
        a.expansion_degree == b.expansion_degree,
        a.seed@ == b.seed@,
    ensures
        a.bas@.len() == b.bas@.len(),
        a.exp@.len() == b.exp@.len(),
        a.exp_reversed@.len() == b.exp_reversed@.len(),
        forall|v: int| 0 <= v < a.nodes ==> #[trigger] a.bas@[v]@ == b.bas@[v]@,
        forall|v: int| 0 <= v < a.nodes ==> #[trigger] a.exp@[v]@ == b.exp@[v]@,
        forall|v: int| 0 <= v < a.nodes ==> #[trigger] a.exp_reversed@[v]@ == b.exp_reversed@[v]@,
{
    assert forall|v: int| 0 <= v < a.nodes implies #[trigger] a.bas@[v]@ == b.bas@[v]@ by {
        assert(a.node_seed(v) == b.node_seed(v));
    }
}

/// Parity symmetry of the views: for `k` below the base degree, the
/// reverse view of the opposite node mirrors the forward view.
pub proof fn lemma_parity_symmetry(g: &Graph, v: int, k: int)
    requires
        g.wf(),
        0 <= v < g.nodes,
        0 <= k < g.base_degree,
    ensures
        rev_view_spec(g, g.nodes - v - 1)[k] == g.nodes - 1 - fwd_view_spec(g, v)[k],
{
    lemma_row_lens(g, v);
    lemma_base_row_entries_below_nodes(g, v);
    assert(fwd_view_spec(g, v)[k] == g.bas@[v]@[k]);
    assert(rev_view_spec(g, g.nodes - v - 1)[k] == (g.nodes - g.bas@[v]@[k] - 1) as usize);
}

} // verus!\n