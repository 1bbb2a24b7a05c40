use rustgraphs::simplegraphs::SimpleEdge;
use rustgraphs::traits::{Edge, Vertex, WeightedEdge};

#[test]
fn vertex_index_round_trip() {
    let v: usize = 17;
    assert_eq!(v.index(), 17);
    assert_eq!(<usize as Vertex>::from_index(17), 17);
    assert_eq!(<usize as Vertex>::from_index(v.index()), v);
}

#[test]
fn vertex_sentinel_is_domain_maximum() {
    assert_eq!(<usize as Vertex>::sentinel(), usize::MAX);
}

#[test]
fn simple_edge_endpoints() {
    let e: SimpleEdge<usize> = SimpleEdge { src: 3, dst: 8 };
    assert_eq!(e.src(), 3);
    assert_eq!(e.dst(), 8);
}

#[test]
fn simple_edge_unit_weight() {
    let e: SimpleEdge<usize> = SimpleEdge { src: 0, dst: 1 };
    let w: u8 = e.weight();
    assert_eq!(w, 1);
}
