//! Leaf production for the external commitment builders.
//!
//! The Merkle trees and the Pedersen hash behind `CommD`, `CommC`,
//! `CommR_last` and `CommR` are built outside the library; what the core
//! fixes is the order and content of the bytes handed to them: the leaf of
//! a single layer is the node's canonical field encoding, the leaf of the
//! column tree is the node's bytes concatenated across the layers, and
//! `CommR` hashes the concatenation of `CommC` and `CommR_last`.
use vstd::prelude::*;

use crate::error::Error;
use crate::field;

verus! {

/// The byte offset of node `v` of layer `layer` in a stack of layers of
/// `nodes` nodes.
pub open spec fn stack_node_off(nodes: int, layer: int, v: int) -> int {
    layer * nodes * 32 + v * 32
}

/// The bytes of node `v` of layer `layer` of the stack.
pub open spec fn stack_node_bytes(stack: Seq<u8>, nodes: int, layer: int, v: int) -> Seq<u8> {
    stack.subrange(stack_node_off(nodes, layer, v), stack_node_off(nodes, layer, v) + 32)
}

/// The column of node `v`: its bytes in layers `0 .. l`, concatenated.
pub open spec fn column_spec(stack: Seq<u8>, nodes: int, v: int, l: nat) -> Seq<u8>
    decreases l,
{
    if l == 0 {
        Seq::<u8>::empty()
    } else {
        column_spec(stack, nodes, v, (l - 1) as nat) + stack_node_bytes(
            stack,
            nodes,
            l - 1,
            v,
        )
    }
}

/// The leaf bytes of node `v` of one layer, accepted only in canonical
/// field encoding: anything at or above `p` is a domain error.
pub fn single_leaf(stack: &Vec<u8>, nodes: usize, layer: usize, v: usize) -> (r: Result<
    Vec<u8>,
    Error,
>)
    requires
        v < nodes,
        (layer + 1) * nodes * 32 <= stack@.len(),
    ensures
        r is Ok <==> field::le_val(
            stack_node_bytes(stack@, nodes as int, layer as int, v as int),
        ) < field::p_nat(),
        r is Ok ==> r->Ok_0@ == stack_node_bytes(stack@, nodes as int, layer as int, v as int),
        r is Err ==> r == Err::<Vec<u8>, Error>(Error::Domain),
{
    let sl = stack.len();
    proof {
        assert(layer * nodes * 32 + v * 32 + 32 <= (layer + 1) * nodes * 32) by (nonlinear_arith)
            requires
                v < nodes,
        ;
    }
    let off: usize = layer * nodes * 32 + v * 32;
    let chunk = vstd::slice::slice_subrange(stack.as_slice(), off, off + 32);
    match field::fr_check(chunk) {
        Ok(bytes) => Ok(bytes),
        Err(_e) => Err(Error::Domain),
    }
}

/// The column-leaf bytes of node `v`: its bytes in every layer, in layer
/// order, with no padding.
pub fn column_bytes(stack: &Vec<u8>, nodes: usize, layers: usize, v: usize) -> (r: Vec<u8>)
    requires
        v < nodes,
        layers * nodes * 32 <= stack@.len(),
    ensures
        r@ == column_spec(stack@, nodes as int, v as int, layers as nat),
        r@.len() == layers * 32,
{
    let sl = stack.len();
    let mut r: Vec<u8> = Vec::new();
    let mut l: usize = 0;
    while l < layers
        invariant
            v < nodes,
            layers * nodes * 32 <= stack@.len(),
            stack@.len() <= usize::MAX,
            l <= layers,
            r@ == column_spec(stack@, nodes as int, v as int, l as nat),
            r@.len() == l * 32,
        decreases layers - l,
    {
        proof {
            assert(l * nodes * 32 + v * 32 + 32 <= (l + 1) * nodes * 32 && (l + 1) * nodes * 32
                <= layers * nodes * 32) by (nonlinear_arith)
                requires
                    v < nodes,
                    l < layers,
            ;
        }
        let off: usize = l * nodes * 32 + v * 32;
        let ghost r0 = r@;
        let mut b: usize = 0;
        while b < 32
            invariant
                off + 32 <= stack@.len(),
                stack@.len() <= usize::MAX,
                b <= 32,
                r@ == r0 + stack@.subrange(off as int, off + b as int),
            decreases 32 - b,
        {
            proof {
                assert(r0 + stack@.subrange(off as int, off + b + 1) =~= (r0 + stack@.subrange(
                    off as int,
                    off + b as int,
                )).push(stack@[off + b]));
            }
            r.push(stack[off + b]);
            b = b + 1;
        }
        proof {
            assert(stack@.subrange(off as int, off + 32) == stack_node_bytes(
                stack@,
                nodes as int,
                l as int,
                v as int,
            )) by {
                assert(off == stack_node_off(nodes as int, l as int, v as int));
            }
        }
        l = l + 1;
    }
    r
}

/// The preimage of `CommR`: the column commitment followed by the last
/// layer's commitment, handed whole to the external hash.
pub fn comm_r_input(comm_c: &Vec<u8>, comm_r_last: &Vec<u8>) -> (r: Vec<u8>)
    ensures
        r@ == comm_c@ + comm_r_last@,
{
    let mut r: Vec<u8> = Vec::new();
    let n1 = comm_c.len();
    let mut i: usize = 0;
    while i < n1
        invariant
            n1 == comm_c@.len(),
            i <= n1,
            r@ == comm_c@.subrange(0, i as int),
        decreases n1 - i,
    {
        proof {
            assert(comm_c@.subrange(0, i + 1) =~= comm_c@.subrange(0, i as int).push(
                comm_c@[i as int],
            ));
        }
        r.push(comm_c[i]);
        i = i + 1;
    }
    proof {
        assert(comm_c@.subrange(0, n1 as int) =~= comm_c@);
    }
    let n2 = comm_r_last.len();
    let mut j: usize = 0;
    while j < n2
        invariant
            n2 == comm_r_last@.len(),
            j <= n2,
            r@ == comm_c@ + comm_r_last@.subrange(0, j as int),
        decreases n2 - j,
    {
        proof {
            assert(comm_c@ + comm_r_last@.subrange(0, j + 1) =~= (comm_c@
                + comm_r_last@.subrange(0, j as int)).push(comm_r_last@[j as int]));
        }
        r.push(comm_r_last[j]);
        j = j + 1;
    }
    proof {
        assert(comm_r_last@.subrange(0, n2 as int) =~= comm_r_last@);
    }
    r
}

} // verus!
