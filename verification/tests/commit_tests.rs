//! Commitment leaf production: layout helpers, columns, leaves, errors.
use r2::commit;
use r2::data_at_node;
use r2::data_at_node_offset;
use r2::error::Error;
use r2::NODE_SIZE;

#[test]
fn node_offsets_are_contiguous() {
    let (s0, e0) = data_at_node_offset(0, 0);
    assert_eq!((s0, e0), (0, 32));
    let (s1, e1) = data_at_node_offset(0, 1);
    assert_eq!((s1, e1), (32, 64));
    let (s2, _e2) = data_at_node_offset(1, 0);
    assert_eq!(s2, 1024 * 1024);
    assert_eq!(NODE_SIZE, 32);
}

#[test]
fn data_at_node_reads_the_slot() {
    let mut data = vec![0u8; 128];
    for i in 0..128 {
        data[i] = i as u8;
    }
    let node = data_at_node(&data, 0, 2);
    assert_eq!(node, &data[64..96]);
}

#[test]
fn column_concatenates_layers_in_order() {
    // Two layers of four nodes, each byte marking its layer and node.
    let nodes = 4usize;
    let layers = 2usize;
    let mut stack = vec![0u8; layers * nodes * 32];
    for l in 0..layers {
        for v in 0..nodes {
            for b in 0..32 {
                stack[l * nodes * 32 + v * 32 + b] = (16 * l + v) as u8;
            }
        }
    }
    let col = commit::column_bytes(&stack, nodes, layers, 1);
    assert_eq!(col.len(), 64);
    assert!(col[0..32].iter().all(|&b| b == 1));
    assert!(col[32..64].iter().all(|&b| b == 17));
}

#[test]
fn single_leaf_is_the_canonical_node() {
    let nodes = 4usize;
    let mut stack = vec![0u8; nodes * 32];
    stack[32] = 7;
    let leaf = commit::single_leaf(&stack, nodes, 0, 1).expect("leaf");
    assert_eq!(leaf, stack[32..64].to_vec());
}

#[test]
fn single_leaf_rejects_non_canonical_bytes() {
    let nodes = 4usize;
    let mut stack = vec![0u8; nodes * 32];
    for b in 0..32 {
        stack[b] = 0xff;
    }
    assert_eq!(commit::single_leaf(&stack, nodes, 0, 0).unwrap_err(), Error::Domain);
}

#[test]
fn comm_r_input_is_the_pair_concatenated() {
    let a = vec![1u8; 32];
    let b = vec![2u8; 32];
    let joined = commit::comm_r_input(&a, &b);
    assert_eq!(&joined[0..32], &a[..]);
    assert_eq!(&joined[32..64], &b[..]);
}

#[test]
fn error_descriptions() {
    assert_eq!(Error::Config.describe(), "configuration error");
    assert_eq!(Error::Io.describe(), "i/o error");
    assert_eq!(Error::Integrity.describe(), "integrity error");
    assert_eq!(Error::Domain.describe(), "domain error");
}
