//! Layered encoding: the tiny end-to-end scenario, determinism, field
//! membership and replica-id sensitivity.
use r2::field;
use r2::graph::Graph;
use r2::replicate;
use sha2::Digest;
use sha2::Sha256;

const SEED: [u32; 7] = [0, 1, 2, 3, 4, 5, 6];

fn digest(data: &[u8]) -> Vec<u8> {
    Sha256::digest(data).to_vec()
}

#[test]
fn tiny_two_layer_replica() {
    let g = Graph::build(8, 5, 8, SEED).expect("graph");
    let replica_id = vec![0u8; 32];
    let data = vec![0u8; 256];
    let mut stack: Vec<u8> = Vec::new();
    replicate::r2(&replica_id, &data, &mut stack, &g, 2);
    assert_eq!(stack.len(), 512);

    // Layer 0, node 0: no parent is absorbed, the data is zero, so the
    // encoded node is the masked digest of the replica id alone.
    let expected0 = field::fr_safe(&digest(&replica_id));
    assert_eq!(&stack[0..32], &expected0[..]);

    // Layer 1, node 0: the previous bytes plus the key over the reverse
    // parents, read from layer 0.
    let layer0 = stack[0..256].to_vec();
    let mut parents = vec![0usize; 13];
    g.parents_reversed(0, &mut parents);
    let mut preimage = replica_id.clone();
    if parents[0] != 0 {
        for &p in &parents {
            preimage.extend_from_slice(&layer0[p * 32..p * 32 + 32]);
        }
    }
    let key = field::fr_safe(&digest(&preimage));
    let prev = field::fr_safe(&layer0[0..32].to_vec());
    let expected1 = field::add_mod_p(&prev, &key);
    assert_eq!(&stack[256..288], &expected1[..]);
}

#[test]
fn first_node_key_is_replica_id_hash() {
    let g = Graph::build(8, 5, 8, SEED).expect("graph");
    let replica_id: Vec<u8> = (0..32u8).collect();
    let data = vec![0u8; 256];
    let layer = replicate::r(&g, &replica_id, 0, &data);
    // Node 0 absorbs nothing beyond the replica id and its data is zero.
    let expected = field::fr_safe(&digest(&replica_id));
    assert_eq!(&layer[0..32], &expected[..]);
}

#[test]
fn replication_deterministic() {
    let g = Graph::build(8, 5, 8, SEED).expect("graph");
    let replica_id: Vec<u8> = (0..32u8).collect();
    let data: Vec<u8> = (0..=255u8).collect();
    let mut s1: Vec<u8> = Vec::new();
    let mut s2: Vec<u8> = Vec::new();
    replicate::r2(&replica_id, &data, &mut s1, &g, 3);
    replicate::r2(&replica_id, &data, &mut s2, &g, 3);
    assert_eq!(s1, s2);
}

#[test]
fn encoded_nodes_lie_in_the_field() {
    let g = Graph::build(8, 5, 8, SEED).expect("graph");
    let replica_id: Vec<u8> = (0..32u8).collect();
    let data: Vec<u8> = (0..=255u8).collect();
    let mut stack: Vec<u8> = Vec::new();
    replicate::r2(&replica_id, &data, &mut stack, &g, 2);
    for l in 0..2 {
        for v in 0..8 {
            let off = l * 256 + v * 32;
            let node = stack[off..off + 32].to_vec();
            assert!(!field::ge_p(&node));
        }
    }
}

#[test]
fn replica_id_bit_flip_changes_every_later_node() {
    let g = Graph::build(8, 5, 8, SEED).expect("graph");
    let data = vec![0u8; 256];
    let rid_a = vec![0u8; 32];
    let mut rid_b = vec![0u8; 32];
    rid_b[0] = 1;
    let layer_a = replicate::r(&g, &rid_a, 0, &data);
    let layer_b = replicate::r(&g, &rid_b, 0, &data);
    for v in 2..8 {
        assert_ne!(&layer_a[v * 32..v * 32 + 32], &layer_b[v * 32..v * 32 + 32]);
    }
}

#[test]
fn padding_parents_are_absorbed() {
    // Node 1 has parents, all of them node 0: its key differs from the
    // bare replica-id digest even over all-zero data.
    let g = Graph::build(8, 5, 8, SEED).expect("graph");
    let replica_id = vec![0u8; 32];
    let data = vec![0u8; 256];
    let layer = replicate::r(&g, &replica_id, 0, &data);
    let bare = field::fr_safe(&digest(&replica_id));
    assert_ne!(&layer[32..64], &bare[..]);
}

#[test]
fn hex_replica_id_round_trip() {
    let replica_id = hex::decode("000102030405060708090a0b0c0d0e0f101112131415161718191a1b1c1d1e1f")
        .expect("hex");
    assert_eq!(replica_id.len(), 32);
    let g = Graph::build(8, 5, 8, SEED).expect("graph");
    let data = vec![0u8; 256];
    let layer = replicate::r(&g, &replica_id, 0, &data);
    assert_eq!(layer.len(), 256);
    assert_eq!(hex::encode(&replica_id).len(), 64);
}
