use rustgraphs::traversals::{bfs, dijkstra};
use rustgraphs::{GraphError, StaticDiGraph, StaticGraph};

fn digraph(edges: &[(usize, usize)]) -> StaticDiGraph {
    StaticDiGraph::from_edges(&edges.to_vec())
}

#[test]
fn bfs_levels_small_tree() {
    let g = digraph(&[(0, 1), (1, 2), (0, 3)]);
    let levels = bfs(&g, 0).unwrap();
    assert_eq!(levels, vec![0, 1, 2, 1]);
}

#[test]
fn bfs_unreached_keep_sentinel() {
    let g = digraph(&[(0, 1), (2, 3)]);
    let levels = bfs(&g, 0).unwrap();
    assert_eq!(levels, vec![0, 1, usize::MAX, usize::MAX]);
}

#[test]
fn bfs_from_sink() {
    let g = digraph(&[(0, 1), (1, 2)]);
    let levels = bfs(&g, 2).unwrap();
    assert_eq!(levels, vec![usize::MAX, usize::MAX, 0]);
}

#[test]
fn bfs_out_of_range_source() {
    let g = digraph(&[(0, 1)]);
    assert_eq!(bfs(&g, 2), Err(GraphError::OutOfRange));
    assert_eq!(bfs(&g, usize::MAX), Err(GraphError::OutOfRange));
}

#[test]
fn bfs_cycle() {
    let g = digraph(&[(0, 1), (1, 2), (2, 0)]);
    let levels = bfs(&g, 1).unwrap();
    assert_eq!(levels, vec![2, 0, 1]);
}

#[test]
fn bfs_undirected() {
    let g = StaticGraph::from_edges(&vec![(0, 1), (1, 2), (0, 3)]);
    let levels = bfs(&g, 2).unwrap();
    assert_eq!(levels, vec![2, 1, 0, 3]);
}

#[test]
fn dijkstra_weighted_path() {
    let g = digraph(&[(0, 1), (1, 2)]);
    let w = |u: usize, v: usize| -> u64 {
        match (u, v) {
            (0, 1) => 2,
            (1, 2) => 3,
            _ => 0,
        }
    };
    let dists = dijkstra(&g, 0, w).unwrap();
    assert_eq!(dists, vec![0, 2, 5]);
}

#[test]
fn dijkstra_prefers_cheaper_detour() {
    // the direct hop 0 -> 1 costs 10; the detour through 2 costs 2, and
    // the improvement must flow on to 3 before 1 is expanded
    let g = digraph(&[(0, 1), (0, 2), (2, 1), (1, 3)]);
    let w = |u: usize, v: usize| -> u64 {
        match (u, v) {
            (0, 1) => 10,
            (0, 2) => 1,
            (2, 1) => 1,
            (1, 3) => 1,
            _ => 0,
        }
    };
    let dists = dijkstra(&g, 0, w).unwrap();
    assert_eq!(dists, vec![0, 2, 1, 3]);
}

#[test]
fn dijkstra_unreached_keep_infinity() {
    let g = digraph(&[(0, 1), (2, 3)]);
    let dists = dijkstra(&g, 0, |_, _| 1u64).unwrap();
    assert_eq!(dists, vec![0, 1, u64::MAX, u64::MAX]);
}

#[test]
fn dijkstra_out_of_range_source() {
    let g = digraph(&[(0, 1)]);
    assert_eq!(dijkstra(&g, 5, |_, _| 1u64), Err(GraphError::OutOfRange));
}

#[test]
fn dijkstra_unit_weights_match_bfs_levels() {
    let shapes: Vec<Vec<(usize, usize)>> = vec![
        vec![(0, 1), (1, 2), (0, 3)],
        vec![(0, 1), (1, 2), (2, 3), (3, 4), (0, 4)],
        vec![(0, 1), (0, 2), (0, 3), (1, 4), (2, 4), (4, 5)],
    ];
    for edges in shapes {
        let g = digraph(&edges);
        let levels = bfs(&g, 0).unwrap();
        let dists = dijkstra(&g, 0, |_, _| 1u64).unwrap();
        assert_eq!(levels.len(), dists.len());
        for v in 0..levels.len() {
            if levels[v] != usize::MAX {
                assert_eq!(dists[v], levels[v] as u64);
            } else {
                assert_eq!(dists[v], u64::MAX);
            }
        }
    }
}

#[test]
fn repeated_traversals_are_bit_identical() {
    let g = digraph(&[(0, 1), (1, 2), (0, 3), (3, 2), (2, 4)]);
    let l1 = bfs(&g, 0).unwrap();
    let l2 = bfs(&g, 0).unwrap();
    let l3 = bfs(&g, 0).unwrap();
    assert_eq!(l1, l2);
    assert_eq!(l2, l3);
    let d1 = dijkstra(&g, 0, |_, _| 7u64).unwrap();
    let d2 = dijkstra(&g, 0, |_, _| 7u64).unwrap();
    assert_eq!(d1, d2);
}
