//! Core of a stacked-DRG proof-of-replication replicator.
//!
//! The library builds the layered depth-robust graph (DRG parents sampled
//! from a seeded stream cipher, expander parents derived from a Feistel
//! permutation, plus the reversed expander adjacency), encodes a data blob
//! layer by layer under a replica id, and provides the byte-level codec for
//! the on-disk graph cache together with a prefetch cache model.  All file
//! and thread plumbing lives outside the library.
use vstd::prelude::*;

pub mod cache;
pub mod codec;
pub mod commit;
pub mod error;
pub mod feistel;
pub mod field;
pub mod graph;
pub mod prg;
pub mod replicate;
pub mod sha;

verus! {

/// Size of the data blob of one layer at production size.
pub const DATA_SIZE: usize = 1024 * 1024;

/// Size of each node in the graph, one field-element representation.
pub const NODE_SIZE: usize = 32;

/// Number of layers of the stacked encoding.
pub const LAYERS: usize = 10;

/// Number of nodes in each layer at production size.
pub const NODES: usize = DATA_SIZE / NODE_SIZE;

/// In-degree of the depth-robust base graph.
pub const BASE_PARENTS: usize = 5;

/// Degree of the expander graph.
pub const EXP_PARENTS: usize = 8;

/// Number of parents of each node: base parents then expander parents.
pub const PARENT_SIZE: usize = BASE_PARENTS + EXP_PARENTS;

/// Size of a replica id in bytes.
pub const REPLICA_ID_SIZE: usize = 32;

/// Number of challenges opened by the external prover.
pub const OFFLINE_CHALLENGES: usize = 100;

/// Byte range of node `v` of layer `layer` inside the flat layered buffer.
pub fn data_at_node_offset(layer: usize, v: usize) -> (r: (usize, usize))
    requires
        v * NODE_SIZE + layer * DATA_SIZE + NODE_SIZE <= usize::MAX,
    ensures
        r.0 == v * NODE_SIZE + layer * DATA_SIZE,
        r.1 == r.0 + NODE_SIZE,
{
    let start: usize = v * NODE_SIZE + layer * DATA_SIZE;
    let end: usize = start + NODE_SIZE;
    (start, end)
}

/// The `NODE_SIZE` bytes of node `v` of layer `layer` in the flat buffer.
pub fn data_at_node<'a>(data: &'a [u8], layer: usize, v: usize) -> (r: &'a [u8])
    requires
        v * NODE_SIZE + layer * DATA_SIZE + NODE_SIZE <= data@.len(),
    ensures
        r@ == data@.subrange(
            (v * NODE_SIZE + layer * DATA_SIZE) as int,
            (v * NODE_SIZE + layer * DATA_SIZE + NODE_SIZE) as int,
        ),
{
    let n = data.len();
    let (start, end) = data_at_node_offset(layer, v);
    vstd::slice::slice_subrange(data, start, end)
}

} // verus!
