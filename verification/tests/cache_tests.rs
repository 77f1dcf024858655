//! Prefetch cache decisions: hits, misses, write-then-read, clearing.
use r2::cache::DataPrefetch;
use r2::graph::Graph;

const SEED: [u32; 7] = [0, 1, 2, 3, 4, 5, 6];

#[test]
fn one_miss_then_one_hit() {
    let mut c = DataPrefetch::new();
    assert!(c.prefetch_node(3));
    assert_eq!(c.misses(), 1);
    assert_eq!(c.hits(), 0);
    assert!(!c.prefetch_node(3));
    assert_eq!(c.misses(), 1);
    assert_eq!(c.hits(), 1);
}

#[test]
fn prefetch_requests_each_node_once() {
    let g = Graph::build(16, 5, 8, SEED).expect("graph");
    let mut c = DataPrefetch::new();
    let first = c.prefetch(&g, 10, false);
    assert!(!first.is_empty());
    let misses_after_first = c.misses();
    let hits_after_first = c.hits();
    // Announcing the same node again finds everything already on its way.
    let second = c.prefetch(&g, 10, false);
    assert!(second.is_empty());
    assert_eq!(c.misses(), misses_after_first);
    assert_eq!(c.hits(), hits_after_first + 14);
}

#[test]
fn shared_parent_fetched_once() {
    let g = Graph::build(16, 5, 8, SEED).expect("graph");
    let mut c = DataPrefetch::new();
    let first = c.prefetch(&g, 10, false);
    let second = c.prefetch(&g, 11, false);
    for t in &second {
        assert!(!first.contains(t));
    }
}

#[test]
fn write_then_read_returns_written_bytes() {
    let mut c = DataPrefetch::new();
    let bytes: Vec<u8> = (0..32u8).collect();
    let offset = c.write_node(7, &bytes);
    assert_eq!(offset, 7 * 32);
    assert_eq!(c.get_node(7), Some(bytes));
    assert_eq!(c.get_node(8), None);
}

#[test]
fn fill_delivers_pending_bytes() {
    let mut c = DataPrefetch::new();
    assert!(c.prefetch_node(5));
    assert_eq!(c.get_node(5), None);
    let bytes = vec![9u8; 32];
    c.fill(5, &bytes);
    assert_eq!(c.get_node(5), Some(bytes));
    // Once delivered it is cached, so a new announcement is a hit.
    assert!(!c.prefetch_node(5));
}

#[test]
fn fill_overwrites() {
    let mut c = DataPrefetch::new();
    c.fill(1, &vec![1u8; 32]);
    c.fill(1, &vec![2u8; 32]);
    assert_eq!(c.get_node(1), Some(vec![2u8; 32]));
}

#[test]
fn clear_forgets_everything() {
    let mut c = DataPrefetch::new();
    c.fill(1, &vec![1u8; 32]);
    assert!(c.prefetch_node(2));
    c.clear();
    assert_eq!(c.get_node(1), None);
    assert_eq!(c.hits(), 0);
    assert_eq!(c.misses(), 0);
    assert!(c.prefetch_node(2));
}
