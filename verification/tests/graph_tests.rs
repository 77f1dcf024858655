//! Graph construction: sampled rows, bounds, reversal, determinism.
use r2::error::Error;
use r2::graph::Graph;

const SEED: [u32; 7] = [0, 1, 2, 3, 4, 5, 6];

#[test]
fn small_graph_fixed_rows() {
    let g = Graph::build(8, 5, 8, SEED).expect("graph");
    assert_eq!(g.bas[0], vec![0usize; 5]);
    assert_eq!(g.bas[1], vec![0usize; 5]);
    assert_eq!(g.bas[2].len(), 5);
    for k in 0..5 {
        assert!(g.bas[2][k] < 2);
        if k > 0 {
            assert!(g.bas[2][k - 1] <= g.bas[2][k]);
        }
    }
    for v in 0..8 {
        assert_eq!(g.exp[v].len(), 8);
        for k in 0..8 {
            assert!(g.exp[v][k] < v || g.exp[v][k] == 0);
        }
    }
}

#[test]
fn base_rows_sorted_and_bounded() {
    let g = Graph::build(16, 5, 8, SEED).expect("graph");
    for v in 2..16 {
        let row = &g.bas[v];
        assert_eq!(row.len(), 5);
        for k in 0..5 {
            assert!(row[k] < v);
            if k > 0 {
                assert!(row[k - 1] <= row[k]);
            }
        }
    }
}

#[test]
fn expander_rows_bounded() {
    let g = Graph::build(16, 5, 8, SEED).expect("graph");
    for v in 0..16 {
        for k in 0..8 {
            assert!(g.exp[v][k] <= v);
        }
    }
}

#[test]
fn reversed_rows_point_back() {
    let g = Graph::build(16, 5, 8, SEED).expect("graph");
    for w in 0..16 {
        for &v in &g.exp_reversed[w] {
            if v != 0 {
                assert!(v > w);
                assert!(g.exp[v].contains(&w));
            }
        }
    }
}

#[test]
fn reversed_rows_recompute_equal() {
    let g = Graph::build(16, 5, 8, SEED).expect("graph");
    let rev = g.recompute_exp_reversed().expect("recompute");
    assert_eq!(rev, g.exp_reversed);
}

#[test]
fn construction_deterministic() {
    let a = Graph::build(16, 5, 8, SEED).expect("graph");
    let b = Graph::build(16, 5, 8, SEED).expect("graph");
    assert_eq!(a, b);
}

#[test]
fn parity_symmetry_base_mirror() {
    let nodes = 16usize;
    let g = Graph::build(nodes, 5, 8, SEED).expect("graph");
    for v in 0..nodes {
        let mut fwd = vec![0usize; 13];
        g.parents(v, &mut fwd);
        let w = nodes - v - 1;
        let mut rev = vec![0usize; 13];
        g.parents_reversed(w, &mut rev);
        for k in 0..5 {
            assert_eq!(rev[k], nodes - 1 - fwd[k]);
        }
    }
}

#[test]
fn forward_view_is_base_then_expander() {
    let g = Graph::build(8, 5, 8, SEED).expect("graph");
    let mut parents = vec![0usize; 13];
    g.parents(3, &mut parents);
    assert_eq!(&parents[0..5], &g.bas[3][..]);
    assert_eq!(&parents[5..13], &g.exp[3][..]);
}

#[test]
fn reverse_view_uses_reversed_rows() {
    let g = Graph::build(8, 5, 8, SEED).expect("graph");
    let mut parents = vec![0usize; 13];
    g.parents_reversed(6, &mut parents);
    assert_eq!(&parents[5..13], &g.exp_reversed[6][..]);
}

#[test]
fn degree_is_sum_of_degrees() {
    let g = Graph::build(8, 5, 8, SEED).expect("graph");
    assert_eq!(g.degree(), 13);
}

#[test]
fn impossible_parameters_are_config_errors() {
    assert_eq!(Graph::build(3, 5, 8, SEED).unwrap_err(), Error::Config);
    assert_eq!(Graph::build(8, 0, 8, SEED).unwrap_err(), Error::Config);
    assert_eq!(Graph::build(8, 6, 8, SEED).unwrap_err(), Error::Config);
    assert_eq!(Graph::build(8, 5, 9, SEED).unwrap_err(), Error::Config);
}

#[test]
fn new_leaves_rows_empty() {
    let g = Graph::new(8, 5, 8, SEED);
    assert_eq!(g.nodes, 8);
    assert_eq!(g.bas.len(), 8);
    assert!(g.bas.iter().all(|r| r.is_empty()));
    assert!(g.exp.iter().all(|r| r.is_empty()));
}

#[test]
fn seed_changes_the_graph() {
    let a = Graph::build(16, 5, 8, SEED).expect("graph");
    let b = Graph::build(16, 5, 8, [9, 9, 9, 9, 9, 9, 9]).expect("graph");
    assert_ne!(a.bas, b.bas);
}
