//! The decision core of the prefetching data cache.
//!
//! The encoder overlaps parent reads with compute: it announces the nodes
//! it will need, the I/O side fetches the missing ones and hands the bytes
//! back, and later reads are served from a bounded cache of recently used
//! nodes.  This module holds every decision — what is a hit, what must be
//! fetched, what a write updates, what leaves the cache when it is full —
//! as pure state transitions over plain values; the file reads and writes
//! themselves, and the worker thread, live outside the library.  Eviction
//! picks an entry whose recency stamp is least.
use vstd::prelude::*;

use crate::graph;
use crate::graph::Graph;

verus! {

/// Bound on the number of cached node slots.
pub const MAX_SIZE: usize = 1048576;

/// A counter bumped without overflowing.
pub open spec fn bump_spec(x: u64) -> u64 {
    if x == u64::MAX {
        x
    } else {
        (x + 1) as u64
    }
}

/// Bump a counter, saturating.
fn bump(x: u64) -> (r: u64)
    ensures
        r == bump_spec(x),
{
    if x == u64::MAX {
        x
    } else {
        x + 1
    }
}

/// The prefetching cache: cached node bytes, nodes announced but not yet
/// delivered, and hit/miss accounting.
pub struct DataPrefetch {
    keys: Vec<u64>,
    vals: Vec<Vec<u8>>,
    stamps: Vec<u64>,
    pending: Vec<u64>,
    cap: usize,
    clock: u64,
    hits: u64,
    misses: u64,
}

impl DataPrefetch {
    /// The internal shape: parallel columns, distinct keys, 32-byte
    /// values, within capacity.
    pub closed spec fn wf(&self) -> bool {
        &&& self.keys@.len() == self.vals@.len()
        &&& self.keys@.len() == self.stamps@.len()
        &&& self.keys@.len() <= self.cap
        &&& self.cap >= 1
        &&& forall|i: int, j: int|
            0 <= i < j < self.keys@.len() ==> #[trigger] self.keys@[i] != #[trigger] self.keys@[j]
        &&& forall|i: int| 0 <= i < self.vals@.len() ==> (#[trigger] self.vals@[i]@).len() == 32
    }

    /// Whether the bytes of a node are cached.
    pub closed spec fn cached(&self, node: u64) -> bool {
        self.keys@.contains(node)
    }

    /// The cached bytes of a node.
    pub closed spec fn value_of(&self, node: u64) -> Seq<u8> {
        self.vals@[choose|i: int| 0 <= i < self.keys@.len() && self.keys@[i] == node]@
    }

    /// Whether a fetch for the node has been announced and not delivered.
    pub closed spec fn is_pending(&self, node: u64) -> bool {
        self.pending@.contains(node)
    }

    /// A node the cache already knows about: cached or on its way.
    pub open spec fn known(&self, node: u64) -> bool {
        self.cached(node) || self.is_pending(node)
    }

    /// How many lookups and announcements were served without a fetch.
    pub closed spec fn hit_count(&self) -> u64 {
        self.hits
    }

    /// How many announcements needed a fetch.
    pub closed spec fn miss_count(&self) -> u64 {
        self.misses
    }

    /// The hit counter.
    pub fn hits(&self) -> (r: u64)
        ensures
            r == self.hit_count(),
    {
        self.hits
    }

    /// The miss counter.
    pub fn misses(&self) -> (r: u64)
        ensures
            r == self.miss_count(),
    {
        self.misses
    }

    /// An empty cache bounded by the default capacity.
    pub fn new() -> (r: DataPrefetch)
        ensures
            r.wf(),
            forall|k: u64| !r.cached(k),
            forall|k: u64| !r.is_pending(k),
            r.hit_count() == 0,
            r.miss_count() == 0,
    {
        DataPrefetch {
            keys: Vec::new(),
            vals: Vec::new(),
            stamps: Vec::new(),
            pending: Vec::new(),
            cap: MAX_SIZE,
            clock: 0,
            hits: 0,
            misses: 0,
        }
    }

    /// Find the column of a key.
    fn find(&self, node: u64) -> (r: Option<usize>)
        requires
            self.wf(),
        ensures
            r is Some ==> r->0 < self.keys@.len() && self.keys@[r->0 as int] == node,
            r is None ==> !self.cached(node),
    {
        let n = self.keys.len();
        let mut i: usize = 0;
        while i < n
            invariant
                n == self.keys@.len(),
                i <= n,
                forall|j: int| 0 <= j < i ==> self.keys@[j] != node,
            decreases n - i,
        {
            if self.keys[i] == node {
                return Some(i);
            }
            i = i + 1;
        }
        None
    }

    /// The index the cached value of a key stands at is the index of the
    /// key: keys are distinct.
    proof fn lemma_value_at(&self, node: u64, i: int)
        requires
            self.wf(),
            0 <= i < self.keys@.len(),
            self.keys@[i] == node,
        ensures
            self.value_of(node) == self.vals@[i]@,
    {
        let j = choose|j: int| 0 <= j < self.keys@.len() && self.keys@[j] == node;
        if i != j {
            if i < j {
                assert(self.keys@[i] != self.keys@[j]);
            } else {
                assert(self.keys@[j] != self.keys@[i]);
            }
        }
    }

    /// Look a node up: its bytes on a hit, nothing on a miss.  The cached
    /// contents do not change, only the recency of the touched entry.
    pub fn get_node(&mut self, node: u64) -> (r: Option<Vec<u8>>)
        requires
            old(self).wf(),
        ensures
            final(self).wf(),
            r is Some <==> old(self).cached(node),
            r is Some ==> r->0@ == old(self).value_of(node) && r->0@.len() == 32,
            forall|k: u64| final(self).cached(k) <==> old(self).cached(k),
            forall|k: u64|
                old(self).cached(k) ==> final(self).value_of(k) == old(self).value_of(k),
            forall|k: u64| final(self).is_pending(k) <==> old(self).is_pending(k),
            final(self).hit_count() == old(self).hit_count(),
            final(self).miss_count() == old(self).miss_count(),
    {
        let found = self.find(node);
        match found {
            Some(i) => {
                proof {
                    self.lemma_value_at(node, i as int);
                }
                let v = clone_bytes(&self.vals[i]);
                let c = self.clock;
                self.stamps.set(i, c);
                self.clock = bump(c);
                proof {
                    assert forall|k: u64|
                        old(self).cached(k) implies final(self).value_of(k) == old(self).value_of(
                        k,
                    ) by {
                        let j = choose|j: int|
                            0 <= j < old(self).keys@.len() && old(self).keys@[j] == k;
                        self.lemma_value_at(k, j);
                        old(self).lemma_value_at(k, j);
                    }
                }
                Some(v)
            },
            None => None,
        }
    }

    /// Announce that a node will be needed.  Answers whether the I/O side
    /// must fetch it: a known node is a hit, an unknown one a miss that is
    /// marked pending.
    pub fn prefetch_node(&mut self, node: u64) -> (fetch: bool)
        requires
            old(self).wf(),
        ensures
            final(self).wf(),
            fetch == !old(self).known(node),
            forall|k: u64| final(self).cached(k) <==> old(self).cached(k),
            forall|k: u64|
                old(self).cached(k) ==> final(self).value_of(k) == old(self).value_of(k),
            forall|k: u64|
                final(self).is_pending(k) <==> (old(self).is_pending(k) || (fetch && k == node)),
            fetch ==> final(self).miss_count() == bump_spec(old(self).miss_count())
                && final(self).hit_count() == old(self).hit_count(),
            !fetch ==> final(self).hit_count() == bump_spec(old(self).hit_count())
                && final(self).miss_count() == old(self).miss_count(),
    {
        let in_cache = match self.find(node) {
            Some(_i) => true,
            None => false,
        };
        let mut in_pending = false;
        let n = self.pending.len();
        let mut i: usize = 0;
        while i < n
            invariant
                n == self.pending@.len(),
                i <= n,
                in_pending == exists|j: int| 0 <= j < i && self.pending@[j] == node,
            decreases n - i,
        {
            if self.pending[i] == node {
                in_pending = true;
            }
            i = i + 1;
        }
        proof {
            assert(in_pending == self.is_pending(node));
            if in_cache {
                assert(self.cached(node));
            }
        }
        if in_cache || in_pending {
            self.hits = bump(self.hits);
            false
        } else {
            self.pending.push(node);
            self.misses = bump(self.misses);
            proof {
                assert forall|k: u64|
                    final(self).is_pending(k) <==> (old(self).is_pending(k) || k == node) by {
                    if final(self).is_pending(k) {
                        let j = choose|j: int|
                            0 <= j < self.pending@.len() && self.pending@[j] == k;
                        if j < self.pending@.len() - 1 {
                            assert(old(self).pending@[j] == k);
                        }
                    }
                    if old(self).is_pending(k) {
                        let j = choose|j: int|
                            0 <= j < old(self).pending@.len() && old(self).pending@[j] == k;
                        assert(self.pending@[j] == k);
                    }
                    if k == node {
                        assert(self.pending@[self.pending@.len() - 1] == k);
                    }
                }
            }
            true
        }
    }

    /// Announce a node and its parents, in the exact order the encoder
    /// will consume them: the thirteen parents of the view, then the node.
    /// Answers exactly the announced nodes the cache did not already know,
    /// each marked pending for the I/O side to fetch.
    pub fn prefetch(&mut self, g: &Graph, node: usize, reverse: bool) -> (fetches: Vec<u64>)
        requires
            old(self).wf(),
            g.wf(),
            node < g.nodes,
        ensures
            final(self).wf(),
            forall|k: u64| final(self).cached(k) <==> old(self).cached(k),
            forall|k: u64|
                old(self).cached(k) ==> final(self).value_of(k) == old(self).value_of(k),
            // Everything announced is now known.
            forall|j: int|
                0 <= j < crate::replicate::view_spec(g, reverse, node as int).len() ==> final(self).known(
                    (#[trigger] crate::replicate::view_spec(g, reverse, node as int)[j]) as u64,
                ),
            final(self).known(node as u64),
            // What is to be fetched was unknown, and is pending now.
            forall|j: int|
                0 <= j < fetches@.len() ==> final(self).is_pending(#[trigger] fetches@[j]) && !old(self).known(fetches@[j]),
            // Every unknown announced node is in the fetch list.
            forall|j: int|
                0 <= j < crate::replicate::view_spec(g, reverse, node as int).len() ==> (!old(self).known(
                    (#[trigger] crate::replicate::view_spec(g, reverse, node as int)[j]) as u64,
                ) ==> fetches@.contains(
                    crate::replicate::view_spec(g, reverse, node as int)[j] as u64,
                )),
            !old(self).known(node as u64) ==> fetches@.contains(node as u64),
            // Nothing beyond the announced nodes becomes pending.
            forall|k: u64|
                #[trigger] final(self).is_pending(k) ==> old(self).is_pending(k) || k
                    == node as u64 || exists|j: int|
                    0 <= j < crate::replicate::view_spec(g, reverse, node as int).len() && (
                    #[trigger] crate::replicate::view_spec(g, reverse, node as int)[j]) as u64
                        == k,
    {
        let ghost targets = crate::replicate::view_spec(g, reverse, node as int);
        let m = g.base_degree;
        let e = g.expansion_degree;
        let degree = m + e;
        let mut parents: Vec<usize> = Vec::new();
        let mut z: usize = 0;
        while z < degree
            invariant
                z <= degree,
                parents@.len() == z,
            decreases degree - z,
        {
            parents.push(0);
            z = z + 1;
        }
        if reverse {
            g.parents_reversed(node, &mut parents);
        } else {
            g.parents(node, &mut parents);
        }
        proof {
            graph::lemma_row_lens(g, node as int);
            graph::lemma_row_lens(g, g.nodes - node - 1);
            assert(parents@.len() == degree);
            assert(parents@ == targets);
        }
        let mut fetches: Vec<u64> = Vec::new();
        let mut t: usize = 0;
        while t < degree
            invariant
                self.wf(),
                parents@.len() == degree,
                parents@ == targets,
                t <= degree,
                forall|k: u64| self.cached(k) <==> old(self).cached(k),
                forall|k: u64| old(self).cached(k) ==> self.value_of(k) == old(self).value_of(k),
                forall|k: u64| old(self).known(k) ==> self.known(k),
                forall|j: int| 0 <= j < t ==> self.known((#[trigger] parents@[j]) as u64),
                forall|j: int|
                    0 <= j < fetches@.len() ==> self.is_pending(#[trigger] fetches@[j]) && !old(self).known(fetches@[j]),
                forall|k: u64| self.known(k) ==> old(self).known(k) || fetches@.contains(k),
                forall|k: u64|
                    #[trigger] self.is_pending(k) ==> old(self).is_pending(k) || exists|j: int|
                        0 <= j < t && (#[trigger] parents@[j]) as u64 == k,
            decreases degree - t,
        {
            let p = parents[t] as u64;
            let ghost before = *self;
            let ghost fetches0 = fetches@;
            let fetch = self.prefetch_node(p);
            if fetch {
                fetches.push(p);
            }
            proof {
                if fetch {
                    assert(!before.known(p));
                    assert(!old(self).known(p));
                    assert(fetches@[fetches@.len() - 1] == p);
                    assert(fetches@.contains(p));
                }
                assert forall|j: int|
                    0 <= j < fetches@.len() implies self.is_pending(#[trigger] fetches@[j])
                    && !old(self).known(fetches@[j]) by {
                    if j < fetches0.len() {
                        assert(fetches0[j] == fetches@[j]);
                        assert(before.is_pending(fetches@[j]) || fetches@[j] == p);
                    }
                }
                assert forall|k: u64|
                    self.known(k) implies old(self).known(k) || fetches@.contains(k) by {
                    if !before.known(k) {
                        assert(k == p && fetch);
                    } else {
                        if !old(self).known(k) {
                            assert(fetches0.contains(k));
                            let q = choose|q: int|
                                0 <= q < fetches0.len() && fetches0[q] == k;
                            assert(fetches@[q] == k);
                        }
                    }
                }
                assert forall|k: u64|
                    #[trigger] self.is_pending(k) implies old(self).is_pending(k) || exists|j: int|
                        0 <= j < t + 1 && (#[trigger] parents@[j]) as u64 == k by {
                    if !before.is_pending(k) {
                        assert(k == p);
                        assert((parents@[t as int]) as u64 == k);
                    }
                }
                assert(self.known((parents@[t as int]) as u64));
            }
            t = t + 1;
        }
        let ghost before = *self;
        let ghost fetches0 = fetches@;
        let fetch = self.prefetch_node(node as u64);
        if fetch {
            fetches.push(node as u64);
        }
        proof {
            if fetch {
                assert(!old(self).known(node as u64));
                assert(fetches@[fetches@.len() - 1] == node as u64);
                assert(fetches@.contains(node as u64));
            }
            if !old(self).known(node as u64) && !fetch {
                assert(before.known(node as u64));
                assert(fetches0.contains(node as u64));
                let q = choose|q: int| 0 <= q < fetches0.len() && fetches0[q] == node as u64;
                assert(fetches@[q] == node as u64);
            }
            assert forall|j: int|
                0 <= j < fetches@.len() implies final(self).is_pending(#[trigger] fetches@[j])
                && !old(self).known(fetches@[j]) by {
                if j < fetches0.len() {
                    assert(fetches0[j] == fetches@[j]);
                    assert(before.is_pending(fetches@[j]) || fetches@[j] == node as u64);
                }
            }
            assert forall|j: int|
                0 <= j < targets.len() implies final(self).known(
                (#[trigger] targets[j]) as u64,
            ) by {
                assert(before.known((parents@[j]) as u64));
            }
            assert forall|j: int|
                0 <= j < targets.len() && !old(self).known(
                    (#[trigger] targets[j]) as u64,
                ) implies fetches@.contains(targets[j] as u64) by {
                assert(before.known((parents@[j]) as u64));
                assert(fetches0.contains(targets[j] as u64));
                let q = choose|q: int|
                    0 <= q < fetches0.len() && fetches0[q] == targets[j] as u64;
                assert(fetches@[q] == targets[j] as u64);
            }
            assert forall|k: u64|
                #[trigger] final(self).is_pending(k) implies old(self).is_pending(k) || k
                == node as u64 || exists|j: int|
                0 <= j < targets.len() && (#[trigger] targets[j]) as u64 == k by {
                if !before.is_pending(k) {
                    assert(k == node as u64);
                }
            }
        }
        fetches
    }

    /// Hand delivered or freshly written bytes to the cache.  The node
    /// stops being pending; when the cache is full and the node is new,
    /// some entry with the least recency stamp is evicted for it.
    pub fn fill(&mut self, node: u64, bytes: &Vec<u8>)
        requires
            old(self).wf(),
            bytes@.len() == 32,
        ensures
            final(self).wf(),
            final(self).cached(node),
            final(self).value_of(node) == bytes@,
            !final(self).is_pending(node),
            forall|k: u64|
                k != node ==> (final(self).is_pending(k) <==> old(self).is_pending(k)),
            forall|k: u64|
                old(self).cached(k) && final(self).cached(k) && k != node
                    ==> final(self).value_of(k) == old(self).value_of(k),
            forall|k: u64| final(self).cached(k) ==> (old(self).cached(k) || k == node),
            final(self).hit_count() == old(self).hit_count(),
            final(self).miss_count() == old(self).miss_count(),
    {
        // Drop the node from the pending list.
        let mut new_pending: Vec<u64> = Vec::new();
        let np = self.pending.len();
        let mut i: usize = 0;
        while i < np
            invariant
                np == self.pending@.len(),
                i <= np,
                forall|q: int|
                    0 <= q < new_pending@.len() ==> (#[trigger] new_pending@[q]) != node
                        && self.pending@.contains(new_pending@[q]),
                forall|j: int|
                    0 <= j < i && (#[trigger] self.pending@[j]) != node
                        ==> new_pending@.contains(self.pending@[j]),
            decreases np - i,
        {
            let p = self.pending[i];
            if p != node {
                let ghost before = new_pending@;
                new_pending.push(p);
                proof {
                    assert(self.pending@.contains(p)) by {
                        assert(self.pending@[i as int] == p);
                    }
                    assert forall|j: int|
                        0 <= j < i + 1 && (#[trigger] self.pending@[j]) != node
                        implies new_pending@.contains(self.pending@[j]) by {
                        if j < i {
                            assert(before.contains(self.pending@[j]));
                            let q = choose|q: int|
                                0 <= q < before.len() && before[q] == self.pending@[j];
                            assert(new_pending@[q] == self.pending@[j]);
                        } else {
                            assert(new_pending@[new_pending@.len() - 1] == p);
                        }
                    }
                }
            }
            i = i + 1;
        }
        proof {
            assert forall|k: u64|
                #[trigger] new_pending@.contains(k) implies (k != node
                && self.pending@.contains(k)) by {
                let q = choose|q: int| 0 <= q < new_pending@.len() && new_pending@[q] == k;
            }
            assert forall|k: u64|
                k != node && #[trigger] self.pending@.contains(k) implies new_pending@.contains(
                k,
            ) by {
                let j = choose|j: int| 0 <= j < self.pending@.len() && self.pending@[j] == k;
            }
        }
        self.pending = new_pending;
        let c = self.clock;
        self.clock = bump(c);
        let found = self.find(node);
        match found {
            Some(i) => {
                proof {
                    old(self).lemma_value_at(node, i as int);
                }
                self.vals.set(i, clone_bytes(bytes));
                self.stamps.set(i, c);
                proof {
                    self.lemma_value_at(node, i as int);
                    assert forall|k: u64|
                        old(self).cached(k) && final(self).cached(k) && k != node implies final(self).value_of(k) == old(self).value_of(k) by {
                        let j = choose|j: int|
                            0 <= j < old(self).keys@.len() && old(self).keys@[j] == k;
                        self.lemma_value_at(k, j);
                        old(self).lemma_value_at(k, j);
                    }
                }
            },
            None => {
                if self.keys.len() >= self.cap {
                    // Evict the least recently used entry.
                    let victim = self.lru_index();
                    self.keys.set(victim, node);
                    self.vals.set(victim, clone_bytes(bytes));
                    self.stamps.set(victim, c);
                    proof {
                        assert(self.keys@[victim as int] == node);
                        self.lemma_value_at(node, victim as int);
                        assert forall|k: u64|
                            old(self).cached(k) && final(self).cached(k) && k != node implies final(self).value_of(k) == old(self).value_of(k) by {
                            let j = choose|j: int|
                                0 <= j < self.keys@.len() && self.keys@[j] == k;
                            assert(old(self).keys@[j] == k);
                            self.lemma_value_at(k, j);
                            old(self).lemma_value_at(k, j);
                        }
                        assert forall|k: u64|
                            final(self).cached(k) implies (old(self).cached(k) || k == node) by {
                            let j = choose|j: int|
                                0 <= j < self.keys@.len() && self.keys@[j] == k;
                            if j != victim {
                                assert(old(self).keys@[j] == k);
                            }
                        }
                    }
                } else {
                    self.keys.push(node);
                    self.vals.push(clone_bytes(bytes));
                    self.stamps.push(c);
                    proof {
                        let last = self.keys@.len() - 1;
                        assert(self.keys@[last] == node);
                        self.lemma_value_at(node, last);
                        assert forall|k: u64|
                            old(self).cached(k) && final(self).cached(k) && k != node implies final(self).value_of(k) == old(self).value_of(k) by {
                            let j = choose|j: int|
                                0 <= j < old(self).keys@.len() && old(self).keys@[j] == k;
                            assert(self.keys@[j] == k);
                            self.lemma_value_at(k, j);
                            old(self).lemma_value_at(k, j);
                        }
                        assert forall|k: u64|
                            final(self).cached(k) implies (old(self).cached(k) || k == node) by {
                            let j = choose|j: int|
                                0 <= j < self.keys@.len() && self.keys@[j] == k;
                            if j != last {
                                assert(old(self).keys@[j] == k);
                            }
                        }
                    }
                }
            },
        }
    }

    /// Index of an entry whose recency stamp is least.
    fn lru_index(&self) -> (r: usize)
        requires
            self.wf(),
            self.keys@.len() >= 1,
        ensures
            r < self.keys@.len(),
            forall|j: int| 0 <= j < self.stamps@.len() ==> self.stamps@[r as int] <= #[trigger] self.stamps@[j],
    {
        let n = self.stamps.len();
        let mut best: usize = 0;
        let mut i: usize = 1;
        while i < n
            invariant
                n == self.stamps@.len(),
                n == self.keys@.len(),
                n >= 1,
                best < n,
                1 <= i <= n,
                forall|j: int| 0 <= j < i ==> self.stamps@[best as int] <= #[trigger] self.stamps@[j],
            decreases n - i,
        {
            if self.stamps[i] < self.stamps[best] {
                best = i;
            }
            i = i + 1;
        }
        best
    }

    /// Record a write: the cache is updated before the positional write
    /// goes out, so any later read of the node sees these bytes.  Answers
    /// the byte offset of the node inside the active layer.
    pub fn write_node(&mut self, node: u64, bytes: &Vec<u8>) -> (offset: u64)
        requires
            old(self).wf(),
            bytes@.len() == 32,
            node <= 0xffff_ffff,
        ensures
            final(self).wf(),
            offset == node * 32,
            final(self).cached(node),
            final(self).value_of(node) == bytes@,
            forall|k: u64|
                old(self).cached(k) && final(self).cached(k) && k != node
                    ==> final(self).value_of(k) == old(self).value_of(k),
    {
        self.fill(node, bytes);
        node * 32
    }

    /// Forget everything: cached bytes, pending fetches and counters.
    pub fn clear(&mut self)
        ensures
            final(self).wf(),
            forall|k: u64| !final(self).cached(k),
            forall|k: u64| !final(self).is_pending(k),
            final(self).hit_count() == 0,
            final(self).miss_count() == 0,
    {
        self.keys = Vec::new();
        self.vals = Vec::new();
        self.stamps = Vec::new();
        self.pending = Vec::new();
        if self.cap < 1 {
            self.cap = MAX_SIZE;
        }
        self.hits = 0;
        self.misses = 0;
    }
}

/// Copy a byte vector.
fn clone_bytes(bytes: &Vec<u8>) -> (r: Vec<u8>)
    ensures
        r@ == bytes@,
{
    let mut r: Vec<u8> = Vec::new();
    let n = bytes.len();
    let mut i: usize = 0;
    while i < n
        invariant
            n == bytes@.len(),
            i <= n,
            r@ == bytes@.subrange(0, i as int),
        decreases n - i,
    {
        proof {
            assert(bytes@.subrange(0, i + 1) =~= bytes@.subrange(0, i as int).push(
                bytes@[i as int],
            ));
        }
        r.push(bytes[i]);
        i = i + 1;
    }
    proof {
        assert(bytes@.subrange(0, n as int) =~= bytes@);
    }
    r
}

} // verus!
