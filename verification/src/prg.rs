//! The seeded stream-cipher generator behind DRG parent sampling.
//!
//! Parent sampling draws from rand's ChaCha generator, freshly seeded per
//! node from the seven graph seed words plus the node index.  The stream is
//! a pure function of those words, so each draw is named as a function of
//! the seed and of the full history of draws made before it: the same seed
//! and history give the same value in every process and on every machine.
//! A `NodePrg` keeps the generator together with the record of its seed and
//! of every draw, and its methods keep that record faithful.
use vstd::prelude::*;

use rand::Rng;
use rand::SeedableRng;

verus! {

#[verifier::external_type_specification]
#[verifier::external_body]
pub struct ExChaChaRng(rand::ChaChaRng);

/// What rand's `gen::<u64>` draws from a ChaCha stream with the given seed
/// words after the given history of draws.
pub uninterp spec fn chacha_gen_u64(seed: Seq<u32>, history: Seq<i64>) -> u64;

/// What rand's `gen_range::<u64>` draws from a ChaCha stream with the given
/// seed words after the given history of draws, for the bounds `[low, high)`.
pub uninterp spec fn chacha_range_u64(seed: Seq<u32>, history: Seq<i64>, low: u64, high: u64) -> u64;

/// A ChaCha generator seeded for one node, with the record of its seed
/// words and of the draws already made from it.
pub struct NodePrg {
    rng: rand::ChaChaRng,
    seed: Vec<u32>,
    history: Vec<i64>,
}

/// Relies on rand's `ChaChaRng::from_seed`: builds the generator state from
/// the seed words alone; nothing else is consulted.
#[verifier::external_body]
fn raw_from_seed(words: &Vec<u32>) -> rand::ChaChaRng {
    SeedableRng::from_seed(words.as_slice())
}

/// Relies on rand's `Rng::gen` for `u64`: the next 64 bits of the ChaCha
/// stream, a pure function of the seed words and of the draws made before,
/// which `NodePrg` records in `seed` and `history`.
#[verifier::external_body]
fn raw_gen_u64(p: &mut NodePrg) -> (r: u64)
    ensures
        r == chacha_gen_u64(old(p).seed@, old(p).history@),
        final(p).seed@ == old(p).seed@,
        final(p).history@ == old(p).history@,
{
    p.rng.gen::<u64>()
}

/// Relies on rand's `Rng::gen_range` for `u64`: a value in `[low, high)`
/// drawn by rejection from the ChaCha stream, a pure function of the seed
/// words, the draws made before, and the bounds; it panics when
/// `low >= high`, so that case is excluded.
#[verifier::external_body]
fn raw_gen_range_u64(p: &mut NodePrg, low: u64, high: u64) -> (r: u64)
    requires
        low < high,
    ensures
        low <= r < high,
        r == chacha_range_u64(old(p).seed@, old(p).history@, low, high),
        final(p).seed@ == old(p).seed@,
        final(p).history@ == old(p).history@,
{
    p.rng.gen_range(low, high)
}

impl NodePrg {
    /// The recorded seed words.
    pub closed spec fn seed_view(&self) -> Seq<u32> {
        self.seed@
    }

    /// The recorded history of draws.
    pub closed spec fn history_view(&self) -> Seq<i64> {
        self.history@
    }

    /// Seed a fresh generator from the seven seed words and the node index.
    pub fn from_seed(seed: &[u32; 7], node: u32) -> (p: NodePrg)
        ensures
            p.seed_view() == seed@.push(node),
            p.history_view() == Seq::<i64>::empty(),
    {
        let mut words: Vec<u32> = Vec::new();
        let mut i: usize = 0;
        while i < 7
            invariant
                i <= 7,
                words@.len() == i,
                forall|j: int| 0 <= j < i ==> words@[j] == seed@[j],
            decreases 7 - i,
        {
            words.push(seed[i]);
            i = i + 1;
        }
        words.push(node);
        proof {
            assert(words@ =~= seed@.push(node));
        }
        let rng = raw_from_seed(&words);
        NodePrg { rng, seed: words, history: Vec::new() }
    }

    /// Draw 64 bits and record the draw.
    pub fn gen_u64(&mut self) -> (r: u64)
        ensures
            r == chacha_gen_u64(old(self).seed_view(), old(self).history_view()),
            final(self).seed_view() == old(self).seed_view(),
            final(self).history_view() == old(self).history_view().push(-1i64),
    {
        let r = raw_gen_u64(self);
        self.history.push(-1);
        r
    }

    /// Draw a value in `[low, high)` and record the draw with its bounds.
    pub fn gen_range_u64(&mut self, low: u64, high: u64) -> (r: u64)
        requires
            low < high,
            high <= 0x7fff_ffff_ffff_ffff,
        ensures
            low <= r < high,
            r == chacha_range_u64(old(self).seed_view(), old(self).history_view(), low, high),
            final(self).seed_view() == old(self).seed_view(),
            final(self).history_view() == old(self).history_view() + seq![
                -2i64,
                low as i64,
                high as i64,
            ],
    {
        let r = raw_gen_range_u64(self, low, high);
        self.history.push(-2);
        self.history.push(low as i64);
        self.history.push(high as i64);
        proof {
            assert(self.history@ =~= old(self).history@ + seq![-2i64, low as i64, high as i64]);
        }
        r
    }
}

} // verus!
