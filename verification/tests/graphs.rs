use rustgraphs::simplegraphs::SimpleEdge;
use rustgraphs::traits::Graph;
use rustgraphs::{GraphError, StaticDiGraph, StaticGraph};

fn digraph(edges: &[(usize, usize)]) -> StaticDiGraph {
    StaticDiGraph::from_edges(&edges.to_vec())
}

fn ugraph(edges: &[(usize, usize)]) -> StaticGraph {
    StaticGraph::from_edges(&edges.to_vec())
}

#[test]
fn digraph_counts() {
    let g = digraph(&[(0, 1), (1, 2), (0, 3)]);
    assert_eq!(g.nv(), 4);
    assert_eq!(g.ne(), 3);
    assert_eq!(g.out_degree(0), Ok(2));
    assert_eq!(g.out_degree(1), Ok(1));
    assert_eq!(g.out_degree(2), Ok(0));
    assert_eq!(g.in_degree(2), Ok(1));
    assert_eq!(g.in_degree(0), Ok(0));
}

#[test]
fn digraph_has_every_listed_edge() {
    let edges = [(0usize, 1usize), (1, 2), (0, 3), (3, 1), (2, 0)];
    let g = digraph(&edges);
    for &(u, v) in edges.iter() {
        assert_eq!(g.has_edge(SimpleEdge { src: u, dst: v }), Ok(true));
    }
    assert_eq!(g.has_edge(SimpleEdge { src: 1, dst: 0 }), Ok(false));
    assert_eq!(g.has_edge(SimpleEdge { src: 2, dst: 3 }), Ok(false));
    assert_eq!(
        g.has_edge(SimpleEdge { src: 9, dst: 0 }),
        Err(GraphError::OutOfRange)
    );
    assert_eq!(
        g.has_edge(SimpleEdge { src: 0, dst: 9 }),
        Err(GraphError::OutOfRange)
    );
}

#[test]
fn digraph_neighbors_sorted() {
    let g = digraph(&[(0, 3), (0, 1), (0, 2), (2, 0)]);
    assert_eq!(g.out_neighbors(0), Ok(&[1usize, 2, 3][..]));
    assert_eq!(g.in_neighbors(0), Ok(&[2usize][..]));
    assert_eq!(g.out_neighbors(1), Ok(&[][..]));
}

#[test]
fn digraph_duplicate_edges_deduplicated() {
    let g = digraph(&[(0, 1), (0, 1), (1, 0)]);
    assert_eq!(g.ne(), 2);
    assert_eq!(g.out_neighbors(0), Ok(&[1usize][..]));
}

#[test]
fn digraph_out_of_range() {
    let g = digraph(&[(0, 1)]);
    assert_eq!(g.out_degree(2), Err(GraphError::OutOfRange));
    assert_eq!(g.in_degree(9), Err(GraphError::OutOfRange));
    assert!(g.out_neighbors(2).is_err());
    assert!(g.in_neighbors(2).is_err());
}

#[test]
fn digraph_vertices_range() {
    let g = digraph(&[(0, 1), (1, 2)]);
    let vs: Vec<usize> = g.vertices().collect();
    assert_eq!(vs, vec![0, 1, 2]);
}

#[test]
fn undirected_degrees_match() {
    let g = ugraph(&[(0, 1), (1, 2), (0, 3)]);
    assert_eq!(g.nv(), 4);
    assert_eq!(g.ne(), 3);
    for v in 0..4 {
        assert_eq!(g.out_degree(v), g.in_degree(v));
    }
    assert_eq!(g.out_degree(0), Ok(2));
    assert_eq!(g.out_degree(1), Ok(2));
}

#[test]
fn undirected_edges_symmetric() {
    let edges = [(0usize, 1usize), (1, 2), (0, 3)];
    let g = ugraph(&edges);
    for u in 0..4usize {
        for v in 0..4usize {
            let fwd = g.has_edge(SimpleEdge { src: u, dst: v }).unwrap();
            let bwd = g.has_edge(SimpleEdge { src: v, dst: u }).unwrap();
            assert_eq!(fwd, bwd);
        }
    }
    assert_eq!(g.has_edge(SimpleEdge { src: 1, dst: 0 }), Ok(true));
    assert_eq!(g.has_edge(SimpleEdge { src: 3, dst: 0 }), Ok(true));
    assert_eq!(g.has_edge(SimpleEdge { src: 1, dst: 3 }), Ok(false));
    assert_eq!(
        g.has_edge(SimpleEdge { src: 4, dst: 1 }),
        Err(GraphError::OutOfRange)
    );
}

#[test]
fn empty_graph() {
    let g = digraph(&[]);
    assert_eq!(g.nv(), 0);
    assert_eq!(g.ne(), 0);
    assert_eq!(g.out_degree(0), Err(GraphError::OutOfRange));
}
