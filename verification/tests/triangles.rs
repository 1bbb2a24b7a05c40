use rustgraphs::triangles::{
    optimal_contiguous_partition, threaded_triangles, threaded_triangles_csr, triangles,
};
use rustgraphs::StaticGraph;

fn ugraph(edges: &[(usize, usize)]) -> StaticGraph {
    StaticGraph::from_edges(&edges.to_vec())
}

fn complete(n: usize) -> Vec<(usize, usize)> {
    let mut edges = Vec::new();
    for u in 0..n {
        for v in (u + 1)..n {
            edges.push((u, v));
        }
    }
    edges
}

#[test]
fn complete_graph_on_four_vertices_has_four_triangles() {
    let g = ugraph(&complete(4));
    assert_eq!(triangles(&g), 4);
}

#[test]
fn path_has_no_triangles() {
    let g = ugraph(&[(0, 1), (1, 2), (2, 3)]);
    assert_eq!(triangles(&g), 0);
}

#[test]
fn single_triangle() {
    let g = ugraph(&[(0, 1), (1, 2), (2, 0)]);
    assert_eq!(triangles(&g), 1);
}

#[test]
fn complete_graph_on_six_vertices() {
    // C(6, 3) = 20 triangles
    let g = ugraph(&complete(6));
    assert_eq!(triangles(&g), 20);
}

#[test]
fn sequential_and_parallel_counts_agree() {
    let sparse: Vec<(usize, usize)> = vec![(0, 1), (1, 2), (2, 3), (3, 4), (4, 0), (0, 2)];
    let dense = complete(7);
    // skewed: a hub touching everything plus a few rim edges
    let mut skewed: Vec<(usize, usize)> = (1..9).map(|v| (0, v)).collect();
    skewed.extend_from_slice(&[(1, 2), (2, 3), (1, 3), (4, 5)]);
    for edges in [sparse, dense, skewed] {
        let g = ugraph(&edges);
        let seq = triangles(&g);
        for workers in [1usize, 2, 3, 12] {
            assert_eq!(threaded_triangles(&g, workers), seq);
            assert_eq!(threaded_triangles_csr(&g, workers), seq);
        }
    }
}

#[test]
fn parallel_count_on_empty_graph() {
    let g = ugraph(&[]);
    assert_eq!(triangles(&g), 0);
    assert_eq!(threaded_triangles(&g, 4), 0);
    assert_eq!(threaded_triangles_csr(&g, 4), 0);
}

#[test]
fn repeated_counts_are_bit_identical() {
    let g = ugraph(&complete(5));
    let a = triangles(&g);
    let b = triangles(&g);
    let c = threaded_triangles(&g, 2);
    let d = threaded_triangles(&g, 2);
    assert_eq!(a, b);
    assert_eq!(c, d);
    assert_eq!(a, c);
}

#[test]
fn partition_unit_weights() {
    let parts = optimal_contiguous_partition(&vec![1, 1, 1, 1], 2);
    assert_eq!(parts, vec![(0, 2), (2, 4)]);
    // both ranges sum to 2, the least achievable maximum: every way of
    // cutting four unit weights into two contiguous ranges has a side
    // that sums to at least 2
    let ws = [1usize, 1, 1, 1];
    for &(a, b) in parts.iter() {
        let s: usize = ws[a..b].iter().sum();
        assert_eq!(s, 2);
    }
    for cut in 0..=ws.len() {
        let left: usize = ws[..cut].iter().sum();
        let right: usize = ws[cut..].iter().sum();
        assert!(left.max(right) >= 2);
    }
}

#[test]
fn partition_single_bin() {
    let parts = optimal_contiguous_partition(&vec![3, 1, 4], 1);
    assert_eq!(parts, vec![(0, 3)]);
}

#[test]
fn partition_oversized_item_gets_own_bin() {
    let parts = optimal_contiguous_partition(&vec![10, 1, 1], 2);
    assert_eq!(parts, vec![(0, 1), (1, 3)]);
}

#[test]
fn partition_splits_wide_ranges_before_padding() {
    // three bins are achievable non-empty: the first greedy range is
    // split rather than padding with an empty range
    let parts = optimal_contiguous_partition(&vec![1, 1, 1, 1], 3);
    assert_eq!(parts, vec![(0, 1), (1, 2), (2, 4)]);
}

#[test]
fn partition_pads_to_exact_count() {
    // two unit weights cannot fill three bins: the third range is empty
    let parts = optimal_contiguous_partition(&vec![1, 1], 3);
    assert_eq!(parts.len(), 3);
    assert_eq!(parts, vec![(0, 1), (1, 2), (2, 2)]);
}

#[test]
fn partition_balances_mixed_weights() {
    let weights = vec![4usize, 3, 2, 1, 1, 1];
    let parts = optimal_contiguous_partition(&weights, 3);
    assert_eq!(parts.len(), 3);
    assert_eq!(parts.first().unwrap().0, 0);
    assert_eq!(parts.last().unwrap().1, weights.len());
    let max_sum: usize = parts
        .iter()
        .map(|&(a, b)| weights[a..b].iter().sum::<usize>())
        .max()
        .unwrap();
    // [4], [3, 2], [1, 1, 1] is optimal with a largest bin of 5
    assert_eq!(max_sum, 5);
}
