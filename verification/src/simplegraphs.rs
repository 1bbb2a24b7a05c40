//! Concrete vertex and edge instantiations used by the static graphs.

use crate::traits::{Edge, Vertex, WeightedEdge};
use vstd::prelude::*;

verus! {

/// A vertex domain usable by the static graph representations: the
/// machine-word instantiation of the bounded unsigned vertex contract.
pub trait SimpleVertex: Vertex + Copy {

}

impl Vertex for usize {
    open spec fn spec_index(&self) -> usize {
        *self
    }

    fn index(&self) -> (r: usize) {
        *self
    }

    fn from_index(x: usize) -> (r: Self) {
        x
    }

    fn sentinel() -> (r: Self) {
        usize::MAX
    }
}

impl SimpleVertex for usize {

}

/// A plain ordered pair of vertices.
#[derive(Clone, Copy, PartialEq, Eq, Structural)]
pub struct SimpleEdge<V> {
    pub src: V,
    pub dst: V,
}

impl<V: SimpleVertex> Edge<V> for SimpleEdge<V> {
    open spec fn spec_src(&self) -> V {
        self.src
    }

    open spec fn spec_dst(&self) -> V {
        self.dst
    }

    fn src(&self) -> (r: V) {
        self.src
    }

    fn dst(&self) -> (r: V) {
        self.dst
    }
}

impl<V: SimpleVertex> WeightedEdge<V, u8> for SimpleEdge<V> {
    open spec fn spec_weight(&self) -> u8 {
        1u8
    }

    fn weight(&self) -> (r: u8) {
        1u8
    }
}

} // verus!
