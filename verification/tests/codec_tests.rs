//! Graph cache byte format: round trip and rejection of bad images.
use r2::codec;
use r2::error::Error;
use r2::graph::Graph;

const SEED: [u32; 7] = [0, 1, 2, 3, 4, 5, 6];

#[test]
fn cache_round_trip_exact() {
    let g = Graph::build(8, 5, 8, SEED).expect("graph");
    let bytes = codec::serialize_graph(&g);
    let g2 = codec::parse_graph(&bytes, SEED).expect("parse");
    assert_eq!(g2, g);
}

#[test]
fn serialize_twice_byte_identical() {
    let g = Graph::build(16, 5, 8, SEED).expect("graph");
    let a = codec::serialize_graph(&g);
    let b = codec::serialize_graph(&g);
    assert_eq!(a, b);
    assert_eq!(a.len(), 16 + 16 * (5 + 2 * 8) * 8);
}

#[test]
fn bad_magic_rejected() {
    let g = Graph::build(8, 5, 8, SEED).expect("graph");
    let mut bytes = codec::serialize_graph(&g);
    bytes[0] ^= 0xff;
    assert_eq!(codec::parse_graph(&bytes, SEED).unwrap_err(), Error::Integrity);
}

#[test]
fn bad_version_rejected() {
    let g = Graph::build(8, 5, 8, SEED).expect("graph");
    let mut bytes = codec::serialize_graph(&g);
    bytes[4] = 99;
    assert_eq!(codec::parse_graph(&bytes, SEED).unwrap_err(), Error::Integrity);
}

#[test]
fn truncated_image_rejected() {
    let g = Graph::build(8, 5, 8, SEED).expect("graph");
    let mut bytes = codec::serialize_graph(&g);
    bytes.pop();
    assert_eq!(codec::parse_graph(&bytes, SEED).unwrap_err(), Error::Integrity);
    assert_eq!(codec::parse_graph(&vec![1, 2, 3], SEED).unwrap_err(), Error::Integrity);
}

#[test]
fn out_of_range_entry_rejected() {
    let g = Graph::build(8, 5, 8, SEED).expect("graph");
    let mut bytes = codec::serialize_graph(&g);
    // First entry of the base section: set it to the node count.
    bytes[16] = 8;
    for b in 17..24 {
        bytes[b] = 0;
    }
    assert_eq!(codec::parse_graph(&bytes, SEED).unwrap_err(), Error::Integrity);
}

#[test]
fn parse_keeps_the_given_seed() {
    let g = Graph::build(8, 5, 8, SEED).expect("graph");
    let bytes = codec::serialize_graph(&g);
    let other = [7u32, 7, 7, 7, 7, 7, 7];
    let g2 = codec::parse_graph(&bytes, other).expect("parse");
    assert_eq!(g2.seed, other);
    assert_eq!(g2.bas, g.bas);
}
