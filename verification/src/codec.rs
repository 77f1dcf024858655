//! The byte format of the on-disk graph cache.
//!
//! A 16-byte header — magic, version, node count, base degree, expander
//! degree — followed by the base rows, the expander rows and the reversed
//! expander rows, each entry a little-endian `u64`, row-major and fixed
//! width.  A reader verifies the header, the length and the entry bounds,
//! and rejects anything else, so a cache file round-trips exactly.  The
//! seed is not stored: the cache is addressed by sector size, and the
//! loader supplies the seed the graph was built from.
use vstd::prelude::*;

use vstd::bytes::spec_u16_from_le_bytes;
use vstd::bytes::spec_u16_to_le_bytes;
use vstd::bytes::spec_u32_from_le_bytes;
use vstd::bytes::spec_u32_to_le_bytes;
use vstd::bytes::spec_u64_from_le_bytes;
use vstd::bytes::spec_u64_to_le_bytes;

use crate::error::Error;
use crate::graph;
use crate::graph::Graph;

verus! {

/// Magic number of a graph cache image.
pub const CACHE_MAGIC: u32 = 0x4752_5048;

/// Version of the graph cache format.
pub const CACHE_VERSION: u32 = 1;

/// The shape serialization relies on: valid parameters, full-width rows,
/// every entry below the node count.
pub open spec fn shape_ok(g: &Graph) -> bool {
    &&& graph::params_ok(g.nodes, g.base_degree, g.expansion_degree)
    &&& g.bas@.len() == g.nodes
    &&& g.exp@.len() == g.nodes
    &&& g.exp_reversed@.len() == g.nodes
    &&& forall|v: int| 0 <= v < g.nodes ==> (#[trigger] g.bas@[v]@).len() == g.base_degree
    &&& forall|v: int| 0 <= v < g.nodes ==> (#[trigger] g.exp@[v]@).len() == g.expansion_degree
    &&& forall|v: int|
        0 <= v < g.nodes ==> (#[trigger] g.exp_reversed@[v]@).len() == g.expansion_degree
    &&& forall|v: int, k: int|
        0 <= v < g.nodes && 0 <= k < g.base_degree ==> (#[trigger] g.bas@[v]@[k]) < g.nodes
    &&& forall|v: int, k: int|
        0 <= v < g.nodes && 0 <= k < g.expansion_degree ==> (#[trigger] g.exp@[v]@[k]) < g.nodes
    &&& forall|v: int, k: int|
        0 <= v < g.nodes && 0 <= k < g.expansion_degree ==> (#[trigger] g.exp_reversed@[v]@[k])
            < g.nodes
}

/// The header bytes of a graph image.
pub open spec fn header_spec(nodes: usize, bd: usize, ed: usize) -> Seq<u8> {
    spec_u32_to_le_bytes(CACHE_MAGIC) + spec_u32_to_le_bytes(CACHE_VERSION) + spec_u32_to_le_bytes(
        nodes as u32,
    ) + spec_u16_to_le_bytes(bd as u16) + spec_u16_to_le_bytes(ed as u16)
}

/// The bytes of the first `n` entries of one row.
pub open spec fn row_bytes(row: Seq<usize>, n: nat) -> Seq<u8>
    decreases n,
{
    if n == 0 {
        Seq::<u8>::empty()
    } else {
        row_bytes(row, (n - 1) as nat) + spec_u64_to_le_bytes(row[n - 1] as u64)
    }
}

/// The bytes of the first `n` rows of a section.
pub open spec fn rows_bytes(rows: Seq<Seq<usize>>, width: nat, n: nat) -> Seq<u8>
    decreases n,
{
    if n == 0 {
        Seq::<u8>::empty()
    } else {
        rows_bytes(rows, width, (n - 1) as nat) + row_bytes(rows[n - 1], width)
    }
}

/// The views of a section's rows.
pub open spec fn rows_view(rows: Seq<Vec<usize>>) -> Seq<Seq<usize>> {
    Seq::new(rows.len(), |i: int| rows[i]@)
}

/// The whole image of a graph.
pub open spec fn graph_bytes_spec(g: &Graph) -> Seq<u8> {
    header_spec(g.nodes, g.base_degree, g.expansion_degree) + rows_bytes(
        rows_view(g.bas@),
        g.base_degree as nat,
        g.nodes as nat,
    ) + rows_bytes(rows_view(g.exp@), g.expansion_degree as nat, g.nodes as nat) + rows_bytes(
        rows_view(g.exp_reversed@),
        g.expansion_degree as nat,
        g.nodes as nat,
    )
}

/// Append one encoded entry to the output.
fn push_u64(out: &mut Vec<u8>, x: u64)
    ensures
        final(out)@ == old(out)@ + spec_u64_to_le_bytes(x),
{
    let bytes = vstd::bytes::u64_to_le_bytes(x);
    let ghost out0 = out@;
    let mut i: usize = 0;
    proof {
        vstd::bytes::lemma_auto_spec_u64_to_from_le_bytes();
    }
    while i < 8
        invariant
            bytes@ == spec_u64_to_le_bytes(x),
            bytes@.len() == 8,
            i <= 8,
            out@ == out0 + bytes@.subrange(0, i as int),
        decreases 8 - i,
    {
        proof {
            assert(out0 + bytes@.subrange(0, i + 1) =~= (out0 + bytes@.subrange(0, i as int)).push(
                bytes@[i as int],
            ));
        }
        out.push(bytes[i]);
        i = i + 1;
    }
    proof {
        assert(bytes@.subrange(0, 8) =~= bytes@);
    }
}

/// Append one section of rows to the output.
fn push_rows(out: &mut Vec<u8>, rows: &Vec<Vec<usize>>, width: usize)
    requires
        forall|v: int| 0 <= v < rows@.len() ==> (#[trigger] rows@[v]@).len() == width,
    ensures
        final(out)@ == old(out)@ + rows_bytes(rows_view(rows@), width as nat, rows@.len()),
{
    let ghost out0 = out@;
    let n = rows.len();
    let mut v: usize = 0;
    while v < n
        invariant
            n == rows@.len(),
            forall|u: int| 0 <= u < rows@.len() ==> (#[trigger] rows@[u]@).len() == width,
            v <= n,
            out@ == out0 + rows_bytes(rows_view(rows@), width as nat, v as nat),
        decreases n - v,
    {
        let ghost row0 = out@;
        let mut k: usize = 0;
        while k < width
            invariant
                n == rows@.len(),
                v < n,
                rows@[v as int]@.len() == width,
                k <= width,
                out@ == row0 + row_bytes(rows@[v as int]@, k as nat),
            decreases width - k,
        {
            push_u64(out, rows[v][k] as u64);
            k = k + 1;
        }
        proof {
            assert(rows_view(rows@)[v as int] == rows@[v as int]@);
            assert(out@ == out0 + rows_bytes(rows_view(rows@), width as nat, (v + 1) as nat));
        }
        v = v + 1;
    }
}

/// Serialize a graph into its cache image.
pub fn serialize_graph(g: &Graph) -> (out: Vec<u8>)
    requires
        shape_ok(g),
    ensures
        out@ == graph_bytes_spec(g),
{
    let mut out: Vec<u8> = Vec::new();
    let magic = vstd::bytes::u32_to_le_bytes(CACHE_MAGIC);
    let version = vstd::bytes::u32_to_le_bytes(CACHE_VERSION);
    let nodes_b = vstd::bytes::u32_to_le_bytes(g.nodes as u32);
    let bd_b = vstd::bytes::u16_to_le_bytes(g.base_degree as u16);
    let ed_b = vstd::bytes::u16_to_le_bytes(g.expansion_degree as u16);
    append_bytes(&mut out, &magic);
    append_bytes(&mut out, &version);
    append_bytes(&mut out, &nodes_b);
    append_bytes(&mut out, &bd_b);
    append_bytes(&mut out, &ed_b);
    proof {
        assert(out@ =~= header_spec(g.nodes, g.base_degree, g.expansion_degree));
    }
    push_rows(&mut out, &g.bas, g.base_degree);
    push_rows(&mut out, &g.exp, g.expansion_degree);
    push_rows(&mut out, &g.exp_reversed, g.expansion_degree);
    proof {
        assert(out@ =~= graph_bytes_spec(g));
    }
    out
}

/// Append a byte vector to the output.
fn append_bytes(out: &mut Vec<u8>, bytes: &Vec<u8>)
    ensures
        final(out)@ == old(out)@ + bytes@,
{
    let ghost out0 = out@;
    let n = bytes.len();
    let mut i: usize = 0;
    while i < n
        invariant
            n == bytes@.len(),
            i <= n,
            out@ == out0 + bytes@.subrange(0, i as int),
        decreases n - i,
    {
        proof {
            assert(out0 + bytes@.subrange(0, i + 1) =~= (out0 + bytes@.subrange(0, i as int)).push(
                bytes@[i as int],
            ));
        }
        out.push(bytes[i]);
        i = i + 1;
    }
    proof {
        assert(bytes@.subrange(0, n as int) =~= bytes@);
    }
}


/// Length of a graph image with these parameters.
pub open spec fn image_len(nodes: int, bd: int, ed: int) -> int {
    16 + nodes * (bd + 2 * ed) * 8
}

/// The entry at index `idx` of the entry area starting at `off`.
pub open spec fn entry_at(bytes: Seq<u8>, off: int, idx: int) -> u64 {
    spec_u64_from_le_bytes(bytes.subrange(off + idx * 8, off + idx * 8 + 8))
}

/// A byte image the reader accepts: right magic and version, valid
/// parameters, exact length, and every entry below the node count.
pub open spec fn image_ok(bytes: Seq<u8>) -> bool {
    &&& bytes.len() >= 16
    &&& spec_u32_from_le_bytes(bytes.subrange(0, 4)) == CACHE_MAGIC
    &&& spec_u32_from_le_bytes(bytes.subrange(4, 8)) == CACHE_VERSION
    &&& {
        let nodes = spec_u32_from_le_bytes(bytes.subrange(8, 12)) as int;
        let bd = spec_u16_from_le_bytes(bytes.subrange(12, 14)) as int;
        let ed = spec_u16_from_le_bytes(bytes.subrange(14, 16)) as int;
        &&& 4 <= nodes
        &&& 1 <= bd <= crate::BASE_PARENTS
        &&& 1 <= ed <= crate::EXP_PARENTS
        &&& bytes.len() == image_len(nodes, bd, ed)
        &&& forall|idx: int|
            0 <= idx < nodes * (bd + 2 * ed) ==> (#[trigger] entry_at(bytes, 16, idx)) < nodes
    }
}

/// Read one section of rows; fails exactly when some entry is not below
/// the node count.
fn read_section(bytes: &Vec<u8>, base: usize, nodes: usize, width: usize) -> (r: Result<
    Vec<Vec<usize>>,
    Error,
>)
    requires
        4 <= nodes <= 0x1_0000_0000,
        1 <= width <= 8,
        base + nodes * width * 8 <= bytes@.len(),
    ensures
        r is Ok <==> (forall|j: int|
            0 <= j < nodes * width ==> (#[trigger] entry_at(bytes@, base as int, j))
                < nodes),
        r is Err ==> r == Err::<Vec<Vec<usize>>, Error>(Error::Integrity),
        r is Ok ==> {
            &&& r->Ok_0@.len() == nodes
            &&& forall|v: int| 0 <= v < nodes ==> (#[trigger] r->Ok_0@[v]@).len() == width
            &&& forall|v: int, k: int|
                0 <= v < nodes && 0 <= k < width ==> (#[trigger] r->Ok_0@[v]@[k]) as u64
                    == entry_at(bytes@, base as int, v * width + k)
        },
{
    let bl = bytes.len();
    let mut rows: Vec<Vec<usize>> = Vec::new();
    let mut v: usize = 0;
    while v < nodes
        invariant
            4 <= nodes <= 0x1_0000_0000,
            1 <= width <= 8,
            base + nodes * width * 8 <= bytes@.len(),
            bytes@.len() <= usize::MAX,
            v <= nodes,
            rows@.len() == v,
            forall|u: int| 0 <= u < v ==> (#[trigger] rows@[u]@).len() == width,
            forall|u: int, k: int|
                0 <= u < v && 0 <= k < width ==> (#[trigger] rows@[u]@[k]) as u64 == entry_at(
                    bytes@,
                    base as int,
                    u * width + k,
                ),
            forall|j: int|
                0 <= j < v * width ==> (#[trigger] entry_at(bytes@, base as int, j)) < nodes,
        decreases nodes - v,
    {
        let mut row: Vec<usize> = Vec::new();
        let mut k: usize = 0;
        while k < width
            invariant
                4 <= nodes <= 0x1_0000_0000,
                1 <= width <= 8,
                base + nodes * width * 8 <= bytes@.len(),
                bytes@.len() <= usize::MAX,
                v < nodes,
                k <= width,
                row@.len() == k,
                forall|k2: int|
                    0 <= k2 < k ==> (#[trigger] row@[k2]) as u64 == entry_at(
                        bytes@,
                        base as int,
                        v * width + k2,
                    ),
                forall|k2: int|
                    0 <= k2 < k ==> (#[trigger] entry_at(bytes@, base as int, v * width + k2))
                        < nodes,
            decreases width - k,
        {
            proof {
                assert((v * width + k) * 8 + 8 <= nodes * width * 8) by (nonlinear_arith)
                    requires
                        v < nodes,
                        k < width,
                        width >= 1,
                ;
            }
            let off: usize = base + (v * width + k) * 8;
            let chunk = vstd::slice::slice_subrange(bytes.as_slice(), off, off + 8);
            let e = vstd::bytes::u64_from_le_bytes(chunk);
            proof {
                assert(e == entry_at(bytes@, base as int, (v * width + k) as int));
            }
            if e >= nodes as u64 {
                proof {
                    assert(0 <= v * width + k < nodes * width) by (nonlinear_arith)
                        requires
                            v < nodes,
                            k < width,
                            width >= 1,
                    ;
                }
                return Err(Error::Integrity);
            }
            row.push(e as usize);
            k = k + 1;
        }
        rows.push(row);
        proof {
            assert forall|j: int|
                0 <= j < (v + 1) * width implies (#[trigger] entry_at(bytes@, base as int, j))
                < nodes by {
                assert((v + 1) * width == v * width + width) by (nonlinear_arith);
                if j < v * width {
                } else {
                    let k2 = j - v * width;
                    assert(entry_at(bytes@, base as int, v * width + k2) < nodes);
                }
            }
        }
        v = v + 1;
    }
    proof {
        assert(v * width == nodes * width);
    }
    Ok(rows)
}

/// Parse a graph cache image, supplying the seed the graph was built
/// from.  Succeeds exactly on well-formed images; everything else is an
/// integrity error.
pub fn parse_graph(bytes: &Vec<u8>, seed: [u32; 7]) -> (r: Result<Graph, Error>)
    ensures
        r is Ok <==> image_ok(bytes@),
        r is Err ==> r == Err::<Graph, Error>(Error::Integrity),
        r is Ok ==> {
            let g = r->Ok_0;
            &&& g.seed@ == seed@
            &&& shape_ok(&g)
            &&& graph_bytes_spec(&g) == bytes@
        },
{
    let bl = bytes.len();
    if bl < 16 {
        return Err(Error::Integrity);
    }
    proof {
        vstd::bytes::lemma_auto_spec_u32_to_from_le_bytes();
        vstd::bytes::lemma_auto_spec_u16_to_from_le_bytes();
        vstd::bytes::lemma_auto_spec_u64_to_from_le_bytes();
    }
    let magic = vstd::bytes::u32_from_le_bytes(vstd::slice::slice_subrange(bytes.as_slice(), 0, 4));
    if magic != CACHE_MAGIC {
        return Err(Error::Integrity);
    }
    let version = vstd::bytes::u32_from_le_bytes(
        vstd::slice::slice_subrange(bytes.as_slice(), 4, 8),
    );
    if version != CACHE_VERSION {
        return Err(Error::Integrity);
    }
    let nodes32 = vstd::bytes::u32_from_le_bytes(
        vstd::slice::slice_subrange(bytes.as_slice(), 8, 12),
    );
    let bd16 = vstd::bytes::u16_from_le_bytes(
        vstd::slice::slice_subrange(bytes.as_slice(), 12, 14),
    );
    let ed16 = vstd::bytes::u16_from_le_bytes(
        vstd::slice::slice_subrange(bytes.as_slice(), 14, 16),
    );
    let nodes: usize = nodes32 as usize;
    let bd: usize = bd16 as usize;
    let ed: usize = ed16 as usize;
    if nodes < 4 || bd < 1 || bd > crate::BASE_PARENTS || ed < 1 || ed > crate::EXP_PARENTS {
        return Err(Error::Integrity);
    }
    proof {
        assert((nodes as u64) * ((bd as u64) + 2 * (ed as u64)) * 8 <= 0x1_0000_0000u64 * 21 * 8)
            by (nonlinear_arith)
            requires
                nodes <= 0x1_0000_0000,
                bd <= 5,
                ed <= 8,
        ;
    }
    let expected: u64 = 16u64 + (nodes as u64) * ((bd as u64) + 2 * (ed as u64)) * 8;
    if bl as u64 != expected {
        proof {
            if image_ok(bytes@) {
                assert(spec_u32_from_le_bytes(bytes@.subrange(8, 12)) == nodes32);
                assert(spec_u16_from_le_bytes(bytes@.subrange(12, 14)) == bd16);
                assert(spec_u16_from_le_bytes(bytes@.subrange(14, 16)) == ed16);
                assert(bytes@.len() == image_len(nodes as int, bd as int, ed as int));
                assert(expected == 16 + nodes as int * ((bd as int) + 2 * (ed as int)) * 8);
                assert(bl == bytes@.len());
                assert(bl as u64 == expected);
                assert(false);
            }
        }
        return Err(Error::Integrity);
    }
    proof {
        assert(bytes@.len() == image_len(nodes as int, bd as int, ed as int));
        assert(nodes as int * ((bd as int) + 2 * (ed as int)) * 8 == nodes as int * (bd as int) * 8
            + nodes as int * (ed as int) * 8 + nodes as int * (ed as int) * 8)
            by (nonlinear_arith);
        assert((nodes * bd) * 8 == nodes * (bd * 8)) by (nonlinear_arith);
        assert((nodes * ed) * 8 == nodes * (ed * 8)) by (nonlinear_arith);
    }
    let base1: usize = 16;
    let sz1: usize = nodes * bd * 8;
    let sz2: usize = nodes * ed * 8;
    let base2: usize = base1 + sz1;
    let base3: usize = base2 + sz2;
    let bas = match read_section(bytes, base1, nodes, bd) {
        Ok(rows) => rows,
        Err(_e) => {
            proof {
                if image_ok(bytes@) {
                    let j = choose|j: int|
                        0 <= j < nodes as int * (bd as int) && !(entry_at(
                            bytes@,
                            base1 as int,
                            j,
                        ) < nodes);
                    assert(nodes as int * ((bd as int) + 2 * (ed as int)) >= nodes as int * (
                    bd as int)) by (nonlinear_arith)
                        requires
                            nodes >= 0,
                            ed >= 0,
                            bd >= 0,
                    ;
                    assert(entry_at(bytes@, 16, j) < nodes);
                    assert(false);
                }
            }
            return Err(Error::Integrity);
        },
    };
    let exp = match read_section(bytes, base2, nodes, ed) {
        Ok(rows) => rows,
        Err(_e) => {
            proof {
                let start = nodes as int * (bd as int);
                lemma_entry_shift(bytes@, 16, start, nodes as int * (ed as int));
                if image_ok(bytes@) {
                    let j = choose|j: int|
                        0 <= j < nodes as int * (ed as int) && !(entry_at(
                            bytes@,
                            base2 as int,
                            j,
                        ) < nodes);
                    assert(base2 as int == 16 + start * 8);
                    assert(entry_at(bytes@, 16, start + j) == entry_at(bytes@, base2 as int, j));
                    assert(nodes as int * ((bd as int) + 2 * (ed as int)) >= start + nodes as int
                        * (ed as int)) by (nonlinear_arith)
                        requires
                            start == nodes as int * (bd as int),
                            nodes >= 0,
                            ed >= 0,
                            bd >= 0,
                    ;
                    assert(entry_at(bytes@, 16, start + j) < nodes);
                    assert(false);
                }
            }
            return Err(Error::Integrity);
        },
    };
    let exp_reversed = match read_section(bytes, base3, nodes, ed) {
        Ok(rows) => rows,
        Err(_e) => {
            proof {
                let start = nodes as int * (bd as int) + nodes as int * (ed as int);
                lemma_entry_shift(bytes@, 16, start, nodes as int * (ed as int));
                if image_ok(bytes@) {
                    let j = choose|j: int|
                        0 <= j < nodes as int * (ed as int) && !(entry_at(
                            bytes@,
                            base3 as int,
                            j,
                        ) < nodes);
                    assert(base3 as int == 16 + start * 8);
                    assert(entry_at(bytes@, 16, start + j) == entry_at(bytes@, base3 as int, j));
                    assert(nodes as int * ((bd as int) + 2 * (ed as int)) == start + nodes as int
                        * (ed as int)) by (nonlinear_arith)
                        requires
                            start == nodes as int * (bd as int) + nodes as int * (ed as int),
                    ;
                    assert(entry_at(bytes@, 16, start + j) < nodes);
                    assert(false);
                }
            }
            return Err(Error::Integrity);
        },
    };
    let g = Graph { nodes, base_degree: bd, expansion_degree: ed, seed, bas, exp, exp_reversed };
    proof {
        assert(shape_ok(&g)) by {
            assert forall|v: int, k: int|
                0 <= v < g.nodes && 0 <= k < g.base_degree implies (#[trigger] g.bas@[v]@[k])
                < g.nodes by {
                assert(0 <= v * bd + k < nodes * bd) by (nonlinear_arith)
                    requires
                        0 <= v < nodes,
                        0 <= k < bd,
                        bd >= 1,
                ;
                assert(g.bas@[v]@[k] as u64 == entry_at(bytes@, base1 as int, v * bd + k));
                assert(entry_at(bytes@, base1 as int, v * bd + k) < nodes);
            }
            assert forall|v: int, k: int|
                0 <= v < g.nodes && 0 <= k < g.expansion_degree implies (
            #[trigger] g.exp@[v]@[k]) < g.nodes by {
                assert(0 <= v * ed + k < nodes * ed) by (nonlinear_arith)
                    requires
                        0 <= v < nodes,
                        0 <= k < ed,
                        ed >= 1,
                ;
                assert(g.exp@[v]@[k] as u64 == entry_at(bytes@, base2 as int, v * ed + k));
                assert(entry_at(bytes@, base2 as int, v * ed + k) < nodes);
            }
            assert forall|v: int, k: int|
                0 <= v < g.nodes && 0 <= k < g.expansion_degree implies (
            #[trigger] g.exp_reversed@[v]@[k]) < g.nodes by {
                assert(0 <= v * ed + k < nodes * ed) by (nonlinear_arith)
                    requires
                        0 <= v < nodes,
                        0 <= k < ed,
                        ed >= 1,
                ;
                assert(g.exp_reversed@[v]@[k] as u64 == entry_at(bytes@, base3 as int, v * ed + k));
                assert(entry_at(bytes@, base3 as int, v * ed + k) < nodes);
            }
        }
        lemma_entry_shift(bytes@, 16, 0, nodes as int * (bd as int));
        lemma_entry_shift(bytes@, 16, nodes as int * (bd as int), nodes as int * (ed as int));
        lemma_entry_shift(
            bytes@,
            16,
            nodes as int * (bd as int) + nodes as int * (ed as int),
            nodes as int * (ed as int),
        );
        assert(image_ok(bytes@)) by {
            assert forall|idx: int|
                0 <= idx < nodes as int * ((bd as int) + 2 * (ed as int)) implies (
            #[trigger] entry_at(bytes@, 16, idx)) < nodes by {
                let nb = nodes as int * (bd as int);
                let ne = nodes as int * (ed as int);
                assert(nodes as int * ((bd as int) + 2 * (ed as int)) == nb + ne + ne)
                    by (nonlinear_arith)
                    requires
                        nb == nodes as int * (bd as int),
                        ne == nodes as int * (ed as int),
                ;
                if idx < nb {
                    assert(entry_at(bytes@, base1 as int, idx) < nodes);
                } else if idx < nb + ne {
                    assert(entry_at(bytes@, base2 as int, idx - nb) < nodes);
                } else {
                    assert(entry_at(bytes@, base3 as int, idx - nb - ne) < nodes);
                }
            }
        }
        lemma_reserialize(&g, bytes@);
    }
    Ok(g)
}

/// Entries of a sub-area shifted by a whole number of entries agree with
/// the global numbering.
proof fn lemma_entry_shift(bytes: Seq<u8>, base: int, start: int, count: int)
    ensures
        forall|j: int|
            0 <= j < count ==> #[trigger] entry_at(bytes, base + start * 8, j) == entry_at(
                bytes,
                base,
                start + j,
            ),
{
    assert forall|j: int|
        0 <= j < count implies #[trigger] entry_at(bytes, base + start * 8, j) == entry_at(
        bytes,
        base,
        start + j,
    ) by {
        assert(base + start * 8 + j * 8 == base + (start + j) * 8) by (nonlinear_arith);
    }
}

/// A graph whose entries decode from an image of the right length
/// re-serializes to exactly that image.
proof fn lemma_reserialize(g: &Graph, bytes: Seq<u8>)
    requires
        shape_ok(g),
        bytes.len() == image_len(g.nodes as int, g.base_degree as int, g.expansion_degree as int),
        spec_u32_from_le_bytes(bytes.subrange(0, 4)) == CACHE_MAGIC,
        spec_u32_from_le_bytes(bytes.subrange(4, 8)) == CACHE_VERSION,
        spec_u32_from_le_bytes(bytes.subrange(8, 12)) == g.nodes as u32,
        spec_u16_from_le_bytes(bytes.subrange(12, 14)) == g.base_degree as u16,
        spec_u16_from_le_bytes(bytes.subrange(14, 16)) == g.expansion_degree as u16,
        forall|v: int, k: int|
            0 <= v < g.nodes && 0 <= k < g.base_degree ==> (#[trigger] g.bas@[v]@[k]) as u64
                == entry_at(bytes, 16, v * g.base_degree + k),
        forall|v: int, k: int|
            0 <= v < g.nodes && 0 <= k < g.expansion_degree ==> (#[trigger] g.exp@[v]@[k]) as u64
                == entry_at(
                bytes,
                16 + g.nodes as int * (g.base_degree as int) * 8,
                v * g.expansion_degree + k,
            ),
        forall|v: int, k: int|
            0 <= v < g.nodes && 0 <= k < g.expansion_degree ==> (#[trigger] g.exp_reversed@[v]@[k])
                as u64 == entry_at(
                bytes,
                16 + g.nodes as int * (g.base_degree as int) * 8 + g.nodes as int * (
                g.expansion_degree as int) * 8,
                v * g.expansion_degree + k,
            ),
    ensures
        graph_bytes_spec(g) == bytes,
{
    vstd::bytes::lemma_auto_spec_u32_to_from_le_bytes();
    vstd::bytes::lemma_auto_spec_u16_to_from_le_bytes();
    let ni = g.nodes as int;
    let bdi = g.base_degree as int;
    let edi = g.expansion_degree as int;
    let h = header_spec(g.nodes, g.base_degree, g.expansion_degree);
    assert(h =~= bytes.subrange(0, 16)) by {
        assert(spec_u32_to_le_bytes(CACHE_MAGIC) == bytes.subrange(0, 4));
        assert(spec_u32_to_le_bytes(CACHE_VERSION) == bytes.subrange(4, 8));
        assert(spec_u32_to_le_bytes(g.nodes as u32) == bytes.subrange(8, 12));
        assert(spec_u16_to_le_bytes(g.base_degree as u16) == bytes.subrange(12, 14));
        assert(spec_u16_to_le_bytes(g.expansion_degree as u16) == bytes.subrange(14, 16));
    }
    let s1 = rows_bytes(rows_view(g.bas@), g.base_degree as nat, g.nodes as nat);
    let s2 = rows_bytes(rows_view(g.exp@), g.expansion_degree as nat, g.nodes as nat);
    let s3 = rows_bytes(rows_view(g.exp_reversed@), g.expansion_degree as nat, g.nodes as nat);
    assert(ni * (bdi + 2 * edi) * 8 == ni * bdi * 8 + ni * edi * 8 + ni * edi * 8)
        by (nonlinear_arith);
    lemma_section_matches(bytes, 16, rows_view(g.bas@), bdi as nat, g.nodes as nat);
    assert(s1 == bytes.subrange(16, 16 + ni * bdi * 8));
    lemma_section_matches(
        bytes,
        16 + ni * bdi * 8,
        rows_view(g.exp@),
        edi as nat,
        g.nodes as nat,
    );
    lemma_section_matches(
        bytes,
        16 + ni * bdi * 8 + ni * edi * 8,
        rows_view(g.exp_reversed@),
        edi as nat,
        g.nodes as nat,
    );
    assert(graph_bytes_spec(g) =~= bytes);
}

/// A section whose entries decode from a byte area equals that area.
proof fn lemma_section_matches(bytes: Seq<u8>, base: int, rows: Seq<Seq<usize>>, width: nat, n: nat)
    requires
        0 <= base,
        base + n * width * 8 <= bytes.len(),
        rows.len() >= n,
        forall|v: int| 0 <= v < n ==> (#[trigger] rows[v]).len() == width,
        forall|v: int, k: int|
            0 <= v < n && 0 <= k < width ==> (#[trigger] rows[v][k]) as u64 == entry_at(
                bytes,
                base,
                v * width + k,
            ),
    ensures
        rows_bytes(rows, width, n) == bytes.subrange(base, base + n * width * 8),
        rows_bytes(rows, width, n).len() == n * width * 8,
    decreases n,
{
    vstd::bytes::lemma_auto_spec_u64_to_from_le_bytes();
    if n == 0 {
        assert(rows_bytes(rows, width, 0) =~= bytes.subrange(base, base));
    } else {
        assert((n - 1) * width * 8 + width * 8 == n * width * 8) by (nonlinear_arith);
        lemma_section_matches(bytes, base, rows, width, (n - 1) as nat);
        let row_base = base + (n - 1) * width * 8;
        lemma_row_matches(bytes, base, row_base, rows[n - 1], width, n - 1);
        assert(rows_bytes(rows, width, n) == rows_bytes(rows, width, (n - 1) as nat) + row_bytes(
            rows[n - 1],
            width,
        ));
        assert(rows_bytes(rows, width, n) =~= bytes.subrange(base, base + n * width * 8));
    }
}

/// A row whose entries decode from a byte area equals that area.
proof fn lemma_row_matches(bytes: Seq<u8>, base: int, row_base: int, row: Seq<usize>, width: nat, v: int)
    requires
        0 <= base <= row_base,
        row_base == base + v * width * 8,
        0 <= v,
        row_base + width * 8 <= bytes.len(),
        row.len() == width,
        forall|k: int|
            0 <= k < width ==> (#[trigger] row[k]) as u64 == entry_at(bytes, base, v * width + k),
    ensures
        row_bytes(row, width) == bytes.subrange(row_base, row_base + width * 8),
        row_bytes(row, width).len() == width * 8,
    decreases width,
{
    vstd::bytes::lemma_auto_spec_u64_to_from_le_bytes();
    if width == 0 {
        assert(row_bytes(row, 0) =~= bytes.subrange(row_base, row_base));
    } else {
        let w1 = (width - 1) as nat;
        assert(forall|k: int|
            0 <= k < w1 ==> (#[trigger] row[k]) as u64 == entry_at(bytes, base, v * width + k));
        lemma_row_matches_prefix(bytes, base, row_base, row, width, w1, v);
        let k = width - 1;
        assert(row[k] as u64 == entry_at(bytes, base, v * width + k));
        let off = base + (v * width + k) * 8;
        assert(off == row_base + k * 8) by (nonlinear_arith)
            requires
                row_base == base + v * width * 8,
                off == base + (v * width + k) * 8,
        ;
        let chunk = bytes.subrange(off, off + 8);
        assert(chunk.len() == 8);
        assert(spec_u64_to_le_bytes(row[k] as u64) == chunk);
        assert(row_bytes(row, width) == row_bytes(row, w1) + spec_u64_to_le_bytes(row[k] as u64));
        assert(row_bytes(row, width) =~= bytes.subrange(row_base, row_base + width * 8));
    }
}

/// Prefix form of `lemma_row_matches`, for the induction.
proof fn lemma_row_matches_prefix(
    bytes: Seq<u8>,
    base: int,
    row_base: int,
    row: Seq<usize>,
    full: nat,
    width: nat,
    v: int,
)
    requires
        0 <= base <= row_base,
        row_base == base + v * full * 8,
        0 <= v,
        width <= full,
        row_base + full * 8 <= bytes.len(),
        row.len() == full,
        forall|k: int|
            0 <= k < full ==> (#[trigger] row[k]) as u64 == entry_at(bytes, base, v * full + k),
    ensures
        row_bytes(row, width) == bytes.subrange(row_base, row_base + width * 8),
        row_bytes(row, width).len() == width * 8,
    decreases width,
{
    vstd::bytes::lemma_auto_spec_u64_to_from_le_bytes();
    if width == 0 {
        assert(row_bytes(row, 0) =~= bytes.subrange(row_base, row_base));
    } else {
        let w1 = (width - 1) as nat;
        lemma_row_matches_prefix(bytes, base, row_base, row, full, w1, v);
        let k = width - 1;
        assert(row[k] as u64 == entry_at(bytes, base, v * full + k));
        let off = base + (v * full + k) * 8;
        assert(off == row_base + k * 8) by (nonlinear_arith)
            requires
                row_base == base + v * full * 8,
                off == base + (v * full + k) * 8,
        ;
        let chunk = bytes.subrange(off, off + 8);
        assert(spec_u64_to_le_bytes(row[k] as u64) == chunk);
        assert(row_bytes(row, width) == row_bytes(row, w1) + spec_u64_to_le_bytes(row[k] as u64));
        assert(row_bytes(row, width) =~= bytes.subrange(row_base, row_base + width * 8));
    }
}


/// Each encoded entry can be read back out of a row's bytes.
proof fn lemma_row_extract(row: Seq<usize>, width: nat)
    requires
        row.len() >= width,
    ensures
        row_bytes(row, width).len() == width * 8,
        forall|k: int|
            0 <= k < width ==> #[trigger] row_bytes(row, width).subrange(k * 8, k * 8 + 8)
                == spec_u64_to_le_bytes(row[k] as u64),
    decreases width,
{
    vstd::bytes::lemma_auto_spec_u64_to_from_le_bytes();
    if width == 0 {
    } else {
        let w1 = (width - 1) as nat;
        lemma_row_extract(row, w1);
        let pre = row_bytes(row, w1);
        let last = spec_u64_to_le_bytes(row[width - 1] as u64);
        assert(row_bytes(row, width) == pre + last);
        assert forall|k: int|
            0 <= k < width implies #[trigger] row_bytes(row, width).subrange(k * 8, k * 8 + 8)
            == spec_u64_to_le_bytes(row[k] as u64) by {
            if k < w1 {
                assert((pre + last).subrange(k * 8, k * 8 + 8) =~= pre.subrange(k * 8, k * 8 + 8));
            } else {
                assert((pre + last).subrange(k * 8, k * 8 + 8) =~= last);
            }
        }
    }
}

/// Each encoded entry can be read back out of a section's bytes.
proof fn lemma_rows_extract(rows: Seq<Seq<usize>>, width: nat, n: nat)
    requires
        rows.len() >= n,
        forall|v: int| 0 <= v < n ==> (#[trigger] rows[v]).len() == width,
    ensures
        rows_bytes(rows, width, n).len() == n * width * 8,
        forall|v: int, k: int|
            0 <= v < n && 0 <= k < width ==> #[trigger] rows_bytes(rows, width, n).subrange(
                (v * width + k) * 8,
                (v * width + k) * 8 + 8,
            ) == spec_u64_to_le_bytes(rows[v][k] as u64),
    decreases n,
{
    if n == 0 {
    } else {
        let n1 = (n - 1) as nat;
        lemma_rows_extract(rows, width, n1);
        lemma_row_extract(rows[n - 1], width);
        let pre = rows_bytes(rows, width, n1);
        let last = row_bytes(rows[n - 1], width);
        assert(rows_bytes(rows, width, n) == pre + last);
        assert((n1 * width + width) * 8 == n * width * 8) by (nonlinear_arith)
            requires
                n >= 1,
                n1 == n - 1,
        ;
        assert forall|v: int, k: int|
            0 <= v < n && 0 <= k < width implies #[trigger] rows_bytes(rows, width, n).subrange(
            (v * width + k) * 8,
            (v * width + k) * 8 + 8,
        ) == spec_u64_to_le_bytes(rows[v][k] as u64) by {
            assert((v * width + k) * 8 + 8 <= n * width * 8) by (nonlinear_arith)
                requires
                    0 <= v < n,
                    0 <= k < width,
            ;
            if v < n1 {
                assert((v * width + k) * 8 + 8 <= n1 * width * 8) by (nonlinear_arith)
                    requires
                        0 <= v < n1,
                        0 <= k < width,
                ;
                assert((pre + last).subrange((v * width + k) * 8, (v * width + k) * 8 + 8) =~= pre.subrange(
                    (v * width + k) * 8,
                    (v * width + k) * 8 + 8,
                ));
            } else {
                assert(v == n - 1);
                assert((v * width + k) * 8 == n1 * width * 8 + k * 8) by (nonlinear_arith)
                    requires
                        v == n1,
                ;
                assert((pre + last).subrange(
                    n1 * width * 8 + k * 8,
                    n1 * width * 8 + k * 8 + 8,
                ) =~= last.subrange(k * 8, k * 8 + 8));
            }
        }
    }
}

/// A serialized graph is an image the reader accepts, and its entries
/// decode back to the graph's rows.
pub proof fn lemma_graph_image_ok(g: &Graph)
    requires
        shape_ok(g),
    ensures
        image_ok(graph_bytes_spec(g)),
        forall|v: int, k: int|
            0 <= v < g.nodes && 0 <= k < g.base_degree ==> entry_at(
                graph_bytes_spec(g),
                16,
                v * g.base_degree + k,
            ) == (#[trigger] g.bas@[v]@[k]) as u64,
        forall|v: int, k: int|
            0 <= v < g.nodes && 0 <= k < g.expansion_degree ==> entry_at(
                graph_bytes_spec(g),
                16 + g.nodes as int * (g.base_degree as int) * 8,
                v * g.expansion_degree + k,
            ) == (#[trigger] g.exp@[v]@[k]) as u64,
        forall|v: int, k: int|
            0 <= v < g.nodes && 0 <= k < g.expansion_degree ==> entry_at(
                graph_bytes_spec(g),
                16 + g.nodes as int * (g.base_degree as int) * 8 + g.nodes as int * (
                g.expansion_degree as int) * 8,
                v * g.expansion_degree + k,
            ) == (#[trigger] g.exp_reversed@[v]@[k]) as u64,
{
    vstd::bytes::lemma_auto_spec_u32_to_from_le_bytes();
    vstd::bytes::lemma_auto_spec_u16_to_from_le_bytes();
    vstd::bytes::lemma_auto_spec_u64_to_from_le_bytes();
    let ni = g.nodes as int;
    let bdi = g.base_degree as int;
    let edi = g.expansion_degree as int;
    let h = header_spec(g.nodes, g.base_degree, g.expansion_degree);
    let s1 = rows_bytes(rows_view(g.bas@), g.base_degree as nat, g.nodes as nat);
    let s2 = rows_bytes(rows_view(g.exp@), g.expansion_degree as nat, g.nodes as nat);
    let s3 = rows_bytes(rows_view(g.exp_reversed@), g.expansion_degree as nat, g.nodes as nat);
    let img = graph_bytes_spec(g);
    assert(img == h + s1 + s2 + s3);
    assert(h.len() == 16);
    lemma_rows_extract(rows_view(g.bas@), g.base_degree as nat, g.nodes as nat);
    lemma_rows_extract(rows_view(g.exp@), g.expansion_degree as nat, g.nodes as nat);
    lemma_rows_extract(rows_view(g.exp_reversed@), g.expansion_degree as nat, g.nodes as nat);
    assert(ni * (bdi + 2 * edi) * 8 == ni * bdi * 8 + ni * edi * 8 + ni * edi * 8)
        by (nonlinear_arith);
    assert(img.len() == image_len(ni, bdi, edi));
    assert(img.subrange(0, 4) =~= spec_u32_to_le_bytes(CACHE_MAGIC));
    assert(img.subrange(4, 8) =~= spec_u32_to_le_bytes(CACHE_VERSION));
    assert(img.subrange(8, 12) =~= spec_u32_to_le_bytes(g.nodes as u32));
    assert(img.subrange(12, 14) =~= spec_u16_to_le_bytes(g.base_degree as u16));
    assert(img.subrange(14, 16) =~= spec_u16_to_le_bytes(g.expansion_degree as u16));
    let b1 = 16;
    let b2 = 16 + ni * bdi * 8;
    let b3 = 16 + ni * bdi * 8 + ni * edi * 8;
    assert forall|v: int, k: int|
        0 <= v < g.nodes && 0 <= k < g.base_degree implies entry_at(img, b1, v * bdi + k) == (
    #[trigger] g.bas@[v]@[k]) as u64 by {
        assert((v * bdi + k) * 8 + 8 <= ni * bdi * 8) by (nonlinear_arith)
            requires
                0 <= v < ni,
                0 <= k < bdi,
        ;
        assert(img.subrange(b1 + (v * bdi + k) * 8, b1 + (v * bdi + k) * 8 + 8) =~= s1.subrange(
            (v * bdi + k) * 8,
            (v * bdi + k) * 8 + 8,
        ));
        assert(rows_view(g.bas@)[v] == g.bas@[v]@);
        assert(s1.subrange((v * bdi + k) * 8, (v * bdi + k) * 8 + 8) == spec_u64_to_le_bytes(
            g.bas@[v]@[k] as u64,
        ));
    }
    assert forall|v: int, k: int|
        0 <= v < g.nodes && 0 <= k < g.expansion_degree implies entry_at(img, b2, v * edi + k)
        == (#[trigger] g.exp@[v]@[k]) as u64 by {
        assert((v * edi + k) * 8 + 8 <= ni * edi * 8) by (nonlinear_arith)
            requires
                0 <= v < ni,
                0 <= k < edi,
        ;
        assert(img.subrange(b2 + (v * edi + k) * 8, b2 + (v * edi + k) * 8 + 8) =~= s2.subrange(
            (v * edi + k) * 8,
            (v * edi + k) * 8 + 8,
        ));
        assert(rows_view(g.exp@)[v] == g.exp@[v]@);
        assert(s2.subrange((v * edi + k) * 8, (v * edi + k) * 8 + 8) == spec_u64_to_le_bytes(
            g.exp@[v]@[k] as u64,
        ));
    }
    assert forall|v: int, k: int|
        0 <= v < g.nodes && 0 <= k < g.expansion_degree implies entry_at(img, b3, v * edi + k)
        == (#[trigger] g.exp_reversed@[v]@[k]) as u64 by {
        assert((v * edi + k) * 8 + 8 <= ni * edi * 8) by (nonlinear_arith)
            requires
                0 <= v < ni,
                0 <= k < edi,
        ;
        assert(img.subrange(b3 + (v * edi + k) * 8, b3 + (v * edi + k) * 8 + 8) =~= s3.subrange(
            (v * edi + k) * 8,
            (v * edi + k) * 8 + 8,
        ));
        assert(rows_view(g.exp_reversed@)[v] == g.exp_reversed@[v]@);
        assert(s3.subrange((v * edi + k) * 8, (v * edi + k) * 8 + 8) == spec_u64_to_le_bytes(
            g.exp_reversed@[v]@[k] as u64,
        ));
    }
    assert(image_ok(img)) by {
        assert(spec_u32_from_le_bytes(img.subrange(8, 12)) == g.nodes as u32);
        assert(spec_u16_from_le_bytes(img.subrange(12, 14)) == g.base_degree as u16);
        assert(spec_u16_from_le_bytes(img.subrange(14, 16)) == g.expansion_degree as u16);
        lemma_entry_shift(img, 16, 0, ni * bdi);
        lemma_entry_shift(img, 16, ni * bdi, ni * edi);
        lemma_entry_shift(img, 16, ni * bdi + ni * edi, ni * edi);
        let nb = ni * bdi;
        let ne = ni * edi;
        assert forall|idx: int|
            0 <= idx < ni * (bdi + 2 * edi) implies (#[trigger] entry_at(img, 16, idx))
            < g.nodes by {
            assert(ni * (bdi + 2 * edi) == nb + ne + ne) by (nonlinear_arith)
                requires
                    nb == ni * bdi,
                    ne == ni * edi,
            ;
            if idx < nb {
                let v = idx / bdi;
                let k = idx % bdi;
                vstd::arithmetic::div_mod::lemma_fundamental_div_mod(idx, bdi);
                assert(0 <= v < ni && 0 <= k < bdi) by (nonlinear_arith)
                    requires
                        0 <= idx < ni * bdi,
                        bdi >= 1,
                        idx == bdi * v + k,
                        0 <= k < bdi,
                ;
                assert(idx == v * bdi + k) by (nonlinear_arith)
                    requires
                        idx == bdi * v + k,
                ;
                assert(entry_at(img, b1, v * bdi + k) == g.bas@[v]@[k] as u64);
            } else if idx < nb + ne {
                let j = idx - nb;
                let v = j / edi;
                let k = j % edi;
                vstd::arithmetic::div_mod::lemma_fundamental_div_mod(j, edi);
                assert(0 <= v < ni && 0 <= k < edi) by (nonlinear_arith)
                    requires
                        0 <= j < ni * edi,
                        edi >= 1,
                        j == edi * v + k,
                        0 <= k < edi,
                ;
                assert(j == v * edi + k) by (nonlinear_arith)
                    requires
                        j == edi * v + k,
                ;
                assert(entry_at(img, 16, nb + j) == entry_at(img, 16 + nb * 8, j));
                assert(b2 == 16 + nb * 8);
                assert(entry_at(img, b2, v * edi + k) == g.exp@[v]@[k] as u64);
            } else {
                let j = idx - nb - ne;
                let v = j / edi;
                let k = j % edi;
                vstd::arithmetic::div_mod::lemma_fundamental_div_mod(j, edi);
                assert(0 <= v < ni && 0 <= k < edi) by (nonlinear_arith)
                    requires
                        0 <= j < ni * edi,
                        edi >= 1,
                        j == edi * v + k,
                        0 <= k < edi,
                ;
                assert(j == v * edi + k) by (nonlinear_arith)
                    requires
                        j == edi * v + k,
                ;
                assert(entry_at(img, 16, nb + ne + j) == entry_at(img, 16 + (nb + ne) * 8, j));
                assert(b3 == 16 + (nb + ne) * 8);
                assert(entry_at(img, b3, v * edi + k) == g.exp_reversed@[v]@[k] as u64);
            }
        }
    }
}

/// Write-then-read is exact: two graphs in the accepted shape with the
/// same image and the same seed hold the same settings and rows.
pub proof fn lemma_codec_round_trip(a: &Graph, b: &Graph)
    requires
        shape_ok(a),
        shape_ok(b),
        a.seed@ == b.seed@,
        graph_bytes_spec(a) == graph_bytes_spec(b),
    ensures
        a.nodes == b.nodes,
        a.base_degree == b.base_degree,
        a.expansion_degree == b.expansion_degree,
        a.bas@.len() == b.bas@.len(),
        a.exp@.len() == b.exp@.len(),
        a.exp_reversed@.len() == b.exp_reversed@.len(),
        forall|v: int| 0 <= v < a.nodes ==> #[trigger] a.bas@[v]@ == b.bas@[v]@,
        forall|v: int| 0 <= v < a.nodes ==> #[trigger] a.exp@[v]@ == b.exp@[v]@,
        forall|v: int| 0 <= v < a.nodes ==> #[trigger] a.exp_reversed@[v]@ == b.exp_reversed@[v]@,
{
    vstd::bytes::lemma_auto_spec_u32_to_from_le_bytes();
    vstd::bytes::lemma_auto_spec_u16_to_from_le_bytes();
    vstd::bytes::lemma_auto_spec_u64_to_from_le_bytes();
    lemma_graph_image_ok(a);
    lemma_graph_image_ok(b);
    let img = graph_bytes_spec(a);
    assert(img.subrange(8, 12) =~= spec_u32_to_le_bytes(a.nodes as u32));
    assert(img.subrange(12, 14) =~= spec_u16_to_le_bytes(a.base_degree as u16));
    assert(img.subrange(14, 16) =~= spec_u16_to_le_bytes(a.expansion_degree as u16));
    assert(graph_bytes_spec(b).subrange(8, 12) =~= spec_u32_to_le_bytes(b.nodes as u32));
    assert(graph_bytes_spec(b).subrange(12, 14) =~= spec_u16_to_le_bytes(b.base_degree as u16));
    assert(graph_bytes_spec(b).subrange(14, 16) =~= spec_u16_to_le_bytes(
        b.expansion_degree as u16,
    ));
    assert(spec_u32_from_le_bytes(img.subrange(8, 12)) == a.nodes as u32);
    assert(spec_u32_from_le_bytes(img.subrange(8, 12)) == b.nodes as u32);
    assert(a.nodes == b.nodes);
    assert(a.base_degree == b.base_degree);
    assert(a.expansion_degree == b.expansion_degree);
    assert forall|v: int| 0 <= v < a.nodes implies #[trigger] a.bas@[v]@ == b.bas@[v]@ by {
        assert forall|k: int| 0 <= k < a.base_degree implies a.bas@[v]@[k] == b.bas@[v]@[k] by {
            assert(entry_at(img, 16, v * a.base_degree + k) == a.bas@[v]@[k] as u64);
            assert(entry_at(img, 16, v * b.base_degree + k) == b.bas@[v]@[k] as u64);
        }
        assert(a.bas@[v]@ =~= b.bas@[v]@);
    }
    assert forall|v: int| 0 <= v < a.nodes implies #[trigger] a.exp@[v]@ == b.exp@[v]@ by {
        assert forall|k: int|
            0 <= k < a.expansion_degree implies a.exp@[v]@[k] == b.exp@[v]@[k] by {
            assert(entry_at(
                img,
                16 + a.nodes as int * (a.base_degree as int) * 8,
                v * a.expansion_degree + k,
            ) == a.exp@[v]@[k] as u64);
            assert(entry_at(
                img,
                16 + b.nodes as int * (b.base_degree as int) * 8,
                v * b.expansion_degree + k,
            ) == b.exp@[v]@[k] as u64);
        }
        assert(a.exp@[v]@ =~= b.exp@[v]@);
    }
    assert forall|v: int|
        0 <= v < a.nodes implies #[trigger] a.exp_reversed@[v]@ == b.exp_reversed@[v]@ by {
        assert forall|k: int|
            0 <= k < a.expansion_degree implies a.exp_reversed@[v]@[k] == b.exp_reversed@[v]@[k] by {
            assert(entry_at(
                img,
                16 + a.nodes as int * (a.base_degree as int) * 8 + a.nodes as int * (
                a.expansion_degree as int) * 8,
                v * a.expansion_degree + k,
            ) == a.exp_reversed@[v]@[k] as u64);
            assert(entry_at(
                img,
                16 + b.nodes as int * (b.base_degree as int) * 8 + b.nodes as int * (
                b.expansion_degree as int) * 8,
                v * b.expansion_degree + k,
            ) == b.exp_reversed@[v]@[k] as u64);
        }
        assert(a.exp_reversed@[v]@ =~= b.exp_reversed@[v]@);
    }
}

} // verus!
