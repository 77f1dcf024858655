//! Layered encoding of a data blob under a replica id.
//!
//! A layer is encoded node by node: the key of a node is the SHA-256
//! digest of the replica id followed by the bytes of its thirteen parents
//! in canonical order, all read from the previous layer (the original data
//! for layer 0); when the first parent equals the node itself (the
//! no-parents case of the first node and, on reversed layers, the last),
//! only the replica id is absorbed.  The node's previous bytes and the key
//! are decoded canonically (top two bits cleared) and added mod `p`, and
//! the little-endian sum is the encoded node.  Even layers use the forward
//! parent view, odd layers the reverse view.
use vstd::prelude::*;

use crate::field;
use crate::graph;
use crate::graph::Graph;
use crate::sha::sha256;
use crate::sha::sha256_of;

verus! {

/// The 32 bytes of node `v` inside a layer.
pub open spec fn node_bytes(layer: Seq<u8>, v: int) -> Seq<u8> {
    layer.subrange(v * 32, v * 32 + 32)
}

/// The parent view the encoder uses for a layer parity.
pub open spec fn view_spec(g: &Graph, reverse: bool, v: int) -> Seq<usize> {
    if reverse {
        graph::rev_view_spec(g, v)
    } else {
        graph::fwd_view_spec(g, v)
    }
}

/// The first `n` parents' bytes, concatenated in view order.
pub open spec fn concat_parents(prev: Seq<u8>, ps: Seq<usize>, n: nat) -> Seq<u8>
    decreases n,
{
    if n == 0 {
        Seq::<u8>::empty()
    } else {
        concat_parents(prev, ps, (n - 1) as nat) + node_bytes(prev, ps[n - 1] as int)
    }
}

/// What the hasher absorbs for a node.
pub open spec fn preimage_spec(
    g: &Graph,
    replica_id: Seq<u8>,
    reverse: bool,
    prev: Seq<u8>,
    v: int,
) -> Seq<u8> {
    let ps = view_spec(g, reverse, v);
    if ps.len() > 0 && ps[0] == v {
        replica_id
    } else {
        replica_id + concat_parents(prev, ps, ps.len())
    }
}

/// The key of a node: the digest of what the hasher absorbs.
pub open spec fn key_spec(
    g: &Graph,
    replica_id: Seq<u8>,
    reverse: bool,
    prev: Seq<u8>,
    v: int,
) -> Seq<u8> {
    sha256_of(preimage_spec(g, replica_id, reverse, prev, v))
}

/// The encoded bytes of a node: previous bytes plus key, both decoded
/// canonically, summed mod `p`, written little-endian.
pub open spec fn encoded_node_spec(
    g: &Graph,
    replica_id: Seq<u8>,
    reverse: bool,
    prev: Seq<u8>,
    v: int,
) -> Seq<u8> {
    field::le_bytes_n(
        (field::le_val(field::mask_spec(node_bytes(prev, v))) + field::le_val(
            field::mask_spec(key_spec(g, replica_id, reverse, prev, v)),
        )) % field::p_nat(),
        32,
    )
}

/// The first `n` encoded nodes of a layer, concatenated.
pub open spec fn layer_upto(
    g: &Graph,
    replica_id: Seq<u8>,
    reverse: bool,
    prev: Seq<u8>,
    n: nat,
) -> Seq<u8>
    decreases n,
{
    if n == 0 {
        Seq::<u8>::empty()
    } else {
        layer_upto(g, replica_id, reverse, prev, (n - 1) as nat) + encoded_node_spec(
            g,
            replica_id,
            reverse,
            prev,
            n - 1,
        )
    }
}

/// One whole encoded layer.
pub open spec fn layer_spec(g: &Graph, replica_id: Seq<u8>, reverse: bool, prev: Seq<u8>) -> Seq<
    u8,
> {
    layer_upto(g, replica_id, reverse, prev, g.nodes as nat)
}

/// The bytes of layer `l` of the stack, layer 0 reading the original data.
pub open spec fn layer_bytes(g: &Graph, replica_id: Seq<u8>, data: Seq<u8>, l: nat) -> Seq<u8>
    decreases l,
{
    if l == 0 {
        layer_spec(g, replica_id, false, data)
    } else {
        layer_spec(g, replica_id, l % 2 == 1, layer_bytes(g, replica_id, data, (l - 1) as nat))
    }
}

/// The whole stack: the layers concatenated in order.
pub open spec fn stack_spec(g: &Graph, replica_id: Seq<u8>, data: Seq<u8>, layers: nat) -> Seq<u8>
    decreases layers,
{
    if layers == 0 {
        Seq::<u8>::empty()
    } else {
        stack_spec(g, replica_id, data, (layers - 1) as nat) + layer_bytes(
            g,
            replica_id,
            data,
            (layers - 1) as nat,
        )
    }
}

/// The parent view has the full degree and all entries below the node
/// count.
pub proof fn lemma_view_entries_bound(g: &Graph, reverse: bool, v: int)
    requires
        g.wf(),
        0 <= v < g.nodes,
    ensures
        view_spec(g, reverse, v).len() == g.base_degree + g.expansion_degree,
        forall|j: int|
            0 <= j < view_spec(g, reverse, v).len() ==> (#[trigger] view_spec(g, reverse, v)[j])
                < g.nodes,
{
    let ni = g.nodes as int;
    let ei = g.expansion_degree as int;
    let m = g.base_degree as int;
    if reverse {
        let mirror = ni - v - 1;
        graph::lemma_row_lens(g, mirror);
        graph::lemma_row_lens(g, v);
        graph::lemma_base_row_entries_below_nodes(g, mirror);
        let ps = view_spec(g, reverse, v);
        assert(ps.len() == m + ei);
        graph::lemma_rev_entries_members(ni, ei, v, g.nodes as nat);
        assert forall|j: int| 0 <= j < ps.len() implies (#[trigger] ps[j]) < g.nodes by {
            if j < m {
                assert(ps[j] == (ni - g.bas@[mirror]@[j] - 1) as usize);
            } else {
                assert(ps[j] == g.exp_reversed@[v]@[j - m]);
                let row = g.exp_reversed@[v]@;
                assert(row == graph::rev_row_spec(ni, ei, v));
                let entries = graph::rev_entries(ni, ei, v);
                if j - m < entries.len() {
                    assert(row[j - m] == entries[j - m]);
                    assert(entries.contains(entries[j - m]));
                } else {
                    assert(row[j - m] == 0usize);
                }
            }
        }
    } else {
        graph::lemma_row_lens(g, v);
        graph::lemma_base_row_entries_below_nodes(g, v);
        graph::lemma_exp_parents_bounded(g, v);
        let ps = view_spec(g, reverse, v);
        assert(ps.len() == m + ei);
        assert forall|j: int| 0 <= j < ps.len() implies (#[trigger] ps[j]) < g.nodes by {
            if j < m {
                assert(ps[j] == g.bas@[v]@[j]);
            } else {
                assert(ps[j] == g.exp@[v]@[j - m]);
            }
        }
    }
}

/// Encode one layer from the previous layer's bytes.  `layer` only sets
/// the parity: even layers traverse forward, odd layers reversed.
pub fn r(g: &Graph, replica_id: &Vec<u8>, layer: usize, prev: &Vec<u8>) -> (out: Vec<u8>)
    requires
        g.wf(),
        replica_id@.len() == 32,
        prev@.len() == g.nodes * 32,
    ensures
        out@ == layer_spec(g, replica_id@, layer % 2 == 1, prev@),
        out@.len() == g.nodes * 32,
{
    let pl = prev.len();
    proof {
        assert(g.nodes * 32 <= usize::MAX);
    }
    let reverse = layer % 2 == 1;
    let m = g.base_degree;
    let e = g.expansion_degree;
    let degree = m + e;
    let nodes = g.nodes;
    let mut parents: Vec<usize> = Vec::new();
    let mut z: usize = 0;
    while z < degree
        invariant
            z <= degree,
            parents@.len() == z,
        decreases degree - z,
    {
        parents.push(0);
        z = z + 1;
    }
    let mut out: Vec<u8> = Vec::new();
    let mut v: usize = 0;
    while v < nodes
        invariant
            g.wf(),
            reverse == (layer % 2 == 1),
            m == g.base_degree,
            e == g.expansion_degree,
            degree == m + e,
            nodes == g.nodes,
            replica_id@.len() == 32,
            prev@.len() == nodes * 32,
            nodes * 32 <= usize::MAX,
            parents@.len() == degree,
            v <= nodes,
            out@.len() == v * 32,
            out@ == layer_upto(g, replica_id@, reverse, prev@, v as nat),
        decreases nodes - v,
    {
        if reverse {
            g.parents_reversed(v, &mut parents);
        } else {
            g.parents(v, &mut parents);
        }
        proof {
            lemma_view_entries_bound(g, reverse, v as int);
            assert(parents@ == view_spec(g, reverse, v as int));
        }
        let mut pre: Vec<u8> = Vec::new();
        let mut i: usize = 0;
        while i < 32
            invariant
                replica_id@.len() == 32,
                i <= 32,
                pre@.len() == i,
                forall|j: int| 0 <= j < i ==> pre@[j] == replica_id@[j],
            decreases 32 - i,
        {
            pre.push(replica_id[i]);
            i = i + 1;
        }
        proof {
            assert(pre@ =~= replica_id@);
        }
        let first = parents[0];
        if first != v {
            let ghost rid = replica_id@;
            let mut t: usize = 0;
            while t < degree
                invariant
                    g.wf(),
                    nodes == g.nodes,
                    prev@.len() == nodes * 32,
                    nodes * 32 <= usize::MAX,
                    parents@.len() == degree,
                    forall|j: int|
                        0 <= j < parents@.len() ==> (#[trigger] parents@[j]) < nodes,
                    t <= degree,
                    rid.len() == 32,
                    pre@ == rid + concat_parents(prev@, parents@, t as nat),
                decreases degree - t,
            {
                let p = parents[t];
                proof {
                    assert((p + 1) * 32 <= nodes * 32) by (nonlinear_arith)
                        requires
                            p < nodes,
                    ;
                }
                let ghost pre0 = pre@;
                let mut b: usize = 0;
                while b < 32
                    invariant
                        prev@.len() == nodes * 32,
                        nodes * 32 <= usize::MAX,
                        p * 32 + 32 <= nodes * 32,
                        b <= 32,
                        pre@.len() == pre0.len() + b,
                        pre@ == pre0 + prev@.subrange(p * 32, p * 32 + b as int),
                    decreases 32 - b,
                {
                    proof {
                        assert(pre0 + prev@.subrange(p * 32, p * 32 + b + 1) =~= (pre0
                            + prev@.subrange(p * 32, p * 32 + b as int)).push(
                            prev@[p * 32 + b],
                        ));
                    }
                    pre.push(prev[p * 32 + b]);
                    b = b + 1;
                }
                proof {
                    assert(pre@ =~= rid + concat_parents(prev@, parents@, (t + 1) as nat));
                }
                t = t + 1;
            }
        }
        proof {
            assert(pre@ == preimage_spec(g, replica_id@, reverse, prev@, v as int));
        }
        let key = sha256(pre.as_slice());
        let key_m = field::fr_safe(key.as_slice());
        proof {
            assert((v + 1) * 32 <= nodes * 32) by (nonlinear_arith)
                requires
                    v < nodes,
            ;
        }
        let pn = vstd::slice::slice_subrange(prev.as_slice(), v * 32, v * 32 + 32);
        let pn_m = field::fr_safe(pn);
        let enc = field::add_mod_p(pn_m.as_slice(), key_m.as_slice());
        proof {
            let target = encoded_node_spec(g, replica_id@, reverse, prev@, v as int);
            let sum = (field::le_val(pn_m@) + field::le_val(key_m@)) % field::p_nat();
            field::lemma_le_bytes_n_val(sum, 32);
            field::lemma_le_val_bound(field::p_le_bytes());
            vstd::arithmetic::div_mod::lemma_small_mod(sum, field::pow256(32));
            field::lemma_le_val_injective(enc@, target);
        }
        let ghost out0 = out@;
        let mut b: usize = 0;
        while b < 32
            invariant
                enc@.len() == 32,
                b <= 32,
                out@ == out0 + enc@.subrange(0, b as int),
            decreases 32 - b,
        {
            proof {
                assert(out0 + enc@.subrange(0, b + 1) =~= (out0 + enc@.subrange(0, b as int)).push(
                    enc@[b as int],
                ));
            }
            out.push(enc[b]);
            b = b + 1;
        }
        proof {
            assert(enc@.subrange(0, 32) =~= enc@);
            assert(out@ == layer_upto(g, replica_id@, reverse, prev@, (v + 1) as nat));
        }
        v = v + 1;
    }
    out
}

/// Produce the whole replica stack: encode every layer in order, each
/// reading the one before it, the first reading the original data.
pub fn r2(replica_id: &Vec<u8>, data: &Vec<u8>, stack: &mut Vec<u8>, g: &Graph, layers: usize)
    requires
        g.wf(),
        replica_id@.len() == 32,
        data@.len() == g.nodes * 32,
    ensures
        final(stack)@ == stack_spec(g, replica_id@, data@, layers as nat),
{
    let mut acc: Vec<u8> = Vec::new();
    let mut prev: Vec<u8> = Vec::new();
    let n = data.len();
    let mut i: usize = 0;
    while i < n
        invariant
            n == data@.len(),
            i <= n,
            prev@.len() == i,
            forall|j: int| 0 <= j < i ==> prev@[j] == data@[j],
        decreases n - i,
    {
        prev.push(data[i]);
        i = i + 1;
    }
    proof {
        assert(prev@ =~= data@);
    }
    let mut l: usize = 0;
    while l < layers
        invariant
            g.wf(),
            replica_id@.len() == 32,
            data@.len() == g.nodes * 32,
            l <= layers,
            prev@.len() == g.nodes * 32,
            l == 0 ==> prev@ == data@,
            l > 0 ==> prev@ == layer_bytes(g, replica_id@, data@, (l - 1) as nat),
            acc@ == stack_spec(g, replica_id@, data@, l as nat),
        decreases layers - l,
    {
        let lay = r(g, replica_id, l, &prev);
        proof {
            assert(lay@ == layer_bytes(g, replica_id@, data@, l as nat));
        }
        let ghost acc0 = acc@;
        let m = lay.len();
        let mut i2: usize = 0;
        while i2 < m
            invariant
                m == lay@.len(),
                i2 <= m,
                acc@ == acc0 + lay@.subrange(0, i2 as int),
            decreases m - i2,
        {
            proof {
                assert(acc0 + lay@.subrange(0, i2 + 1) =~= (acc0 + lay@.subrange(
                    0,
                    i2 as int,
                )).push(lay@[i2 as int]));
            }
            acc.push(lay[i2]);
            i2 = i2 + 1;
        }
        proof {
            assert(lay@.subrange(0, lay@.len() as int) =~= lay@);
        }
        prev = lay;
        l = l + 1;
    }
    *stack = acc;
}

/// Lengths of the layer prefix, and the bytes of each node in it.
pub proof fn lemma_layer_node(
    g: &Graph,
    replica_id: Seq<u8>,
    reverse: bool,
    prev: Seq<u8>,
    n: nat,
    v: int,
)
    ensures
        layer_upto(g, replica_id, reverse, prev, n).len() == n * 32,
        0 <= v < n ==> node_bytes(layer_upto(g, replica_id, reverse, prev, n), v)
            == encoded_node_spec(g, replica_id, reverse, prev, v),
    decreases n,
{
    if n == 0 {
    } else {
        lemma_layer_node(g, replica_id, reverse, prev, (n - 1) as nat, v);
        let pre = layer_upto(g, replica_id, reverse, prev, (n - 1) as nat);
        let encn = encoded_node_spec(g, replica_id, reverse, prev, n - 1);
        field::lemma_le_bytes_n_val(
            (field::le_val(field::mask_spec(node_bytes(prev, n - 1))) + field::le_val(
                field::mask_spec(key_spec(g, replica_id, reverse, prev, n - 1)),
            )) % field::p_nat(),
            32,
        );
        assert(encn.len() == 32);
        assert((n - 1) * 32 + 32 == n * 32) by (nonlinear_arith);
        if 0 <= v < n {
            if v == n - 1 {
                assert((pre + encn).subrange(v * 32, v * 32 + 32) =~= encn);
            } else {
                assert((pre + encn).subrange(v * 32, v * 32 + 32) =~= pre.subrange(
                    v * 32,
                    v * 32 + 32,
                ));
            }
        }
    }
}

/// Every encoded node of a layer holds a value in `[0, p)` under the
/// canonical little-endian reading.
pub proof fn lemma_encoded_in_field(
    g: &Graph,
    replica_id: Seq<u8>,
    reverse: bool,
    prev: Seq<u8>,
    v: int,
)
    requires
        0 <= v < g.nodes,
    ensures
        field::le_val(node_bytes(layer_spec(g, replica_id, reverse, prev), v)) < field::p_nat(),
{
    lemma_layer_node(g, replica_id, reverse, prev, g.nodes as nat, v);
    let sum = (field::le_val(field::mask_spec(node_bytes(prev, v))) + field::le_val(
        field::mask_spec(key_spec(g, replica_id, reverse, prev, v)),
    )) % field::p_nat();
    field::lemma_le_bytes_n_val(sum, 32);
    assert(field::p_nat() > 0) by {
        assert(field::p_le_bytes()[0] == 1);
        assert(field::le_val(field::p_le_bytes()) >= 1);
    }
    assert(sum < field::p_nat()) by {
        vstd::arithmetic::div_mod::lemma_mod_bound(
            (field::le_val(field::mask_spec(node_bytes(prev, v))) + field::le_val(
                field::mask_spec(key_spec(g, replica_id, reverse, prev, v)),
            )) as int,
            field::p_nat() as int,
        );
    }
    field::lemma_le_val_bound(field::p_le_bytes());
    vstd::arithmetic::div_mod::lemma_small_mod(sum, field::pow256(32));
}

/// With no parent absorbed, the key of node 0 on a forward layer is the
/// digest of the replica id alone.
pub proof fn lemma_first_node_key(g: &Graph, replica_id: Seq<u8>, prev: Seq<u8>)
    requires
        g.wf(),
    ensures
        key_spec(g, replica_id, false, prev, 0) == sha256_of(replica_id),
{
    graph::lemma_row_lens(g, 0);
    graph::lemma_base_parents_entries(g, 0);
    let ps = view_spec(g, false, 0);
    assert(ps[0] == g.bas@[0]@[0]);
    assert(g.bas@[0]@[0] == 0usize);
}

/// Replication is deterministic: two well-formed graphs with the same
/// parameters and seed produce the same stack for the same inputs.
pub proof fn lemma_replica_deterministic(
    a: &Graph,
    b: &Graph,
    replica_id: Seq<u8>,
    data: Seq<u8>,
    layers: nat,
)
    requires
        a.wf(),
        b.wf(),
        a.nodes == b.nodes,
        a.base_degree == b.base_degree,
        a.expansion_degree == b.expansion_degree,
        a.seed@ == b.seed@,
    ensures
        stack_spec(a, replica_id, data, layers) == stack_spec(b, replica_id, data, layers),
    decreases layers,
{
    if layers > 0 {
        lemma_replica_deterministic(a, b, replica_id, data, (layers - 1) as nat);
        lemma_layer_bytes_eq(a, b, replica_id, data, (layers - 1) as nat);
    }
}

/// The per-layer bytes agree between two equal graphs.
proof fn lemma_layer_bytes_eq(a: &Graph, b: &Graph, replica_id: Seq<u8>, data: Seq<u8>, l: nat)
    requires
        a.wf(),
        b.wf(),
        a.nodes == b.nodes,
        a.base_degree == b.base_degree,
        a.expansion_degree == b.expansion_degree,
        a.seed@ == b.seed@,
    ensures
        layer_bytes(a, replica_id, data, l) == layer_bytes(b, replica_id, data, l),
    decreases l,
{
    if l == 0 {
        lemma_layer_spec_eq(a, b, replica_id, false, data);
    } else {
        lemma_layer_bytes_eq(a, b, replica_id, data, (l - 1) as nat);
        lemma_layer_spec_eq(a, b, replica_id, l % 2 == 1, layer_bytes(a, replica_id, data, (l - 1) as nat));
    }
}

/// One layer's bytes agree between two equal graphs, for any previous
/// layer.
proof fn lemma_layer_spec_eq(a: &Graph, b: &Graph, replica_id: Seq<u8>, reverse: bool, prev: Seq<u8>)
    requires
        a.wf(),
        b.wf(),
        a.nodes == b.nodes,
        a.base_degree == b.base_degree,
        a.expansion_degree == b.expansion_degree,
        a.seed@ == b.seed@,
    ensures
        layer_spec(a, replica_id, reverse, prev) == layer_spec(b, replica_id, reverse, prev),
{
    graph::lemma_graph_deterministic(a, b);
    assert forall|v: int| 0 <= v < a.nodes implies view_spec(a, reverse, v) == view_spec(
        b,
        reverse,
        v,
    ) by {
        if reverse {
            assert(graph::rev_view_spec(a, v) =~= graph::rev_view_spec(b, v));
        } else {
            assert(graph::fwd_view_spec(a, v) =~= graph::fwd_view_spec(b, v));
        }
    }
    lemma_layer_upto_eq(a, b, replica_id, reverse, prev, a.nodes as nat);
}

/// The layer prefixes agree between two equal graphs.
proof fn lemma_layer_upto_eq(
    a: &Graph,
    b: &Graph,
    replica_id: Seq<u8>,
    reverse: bool,
    prev: Seq<u8>,
    n: nat,
)
    requires
        a.nodes == b.nodes,
        forall|v: int|
            0 <= v < a.nodes ==> #[trigger] view_spec(a, reverse, v) == view_spec(b, reverse, v),
        n <= a.nodes,
    ensures
        layer_upto(a, replica_id, reverse, prev, n) == layer_upto(b, replica_id, reverse, prev, n),
    decreases n,
{
    if n > 0 {
        lemma_layer_upto_eq(a, b, replica_id, reverse, prev, (n - 1) as nat);
        assert(view_spec(a, reverse, n - 1) == view_spec(b, reverse, n - 1));
    }
}

} // verus!
