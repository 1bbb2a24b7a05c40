//! Capability contracts for vertices, edges and graph representations.

use crate::matrix::rows_wf;
use crate::simplegraphs::SimpleEdge;
use crate::GraphError;
use vstd::prelude::*;

verus! {

/// A vertex identifier drawn from a bounded unsigned domain `[0, N)`.
///
/// The domain's maximum representable value is reserved as a sentinel
/// meaning "unset / unreachable / no predecessor".
pub trait Vertex: Sized {
    spec fn spec_index(&self) -> usize;

    fn index(&self) -> (r: usize)
        ensures
            r == self.spec_index(),
    ;

    fn from_index(x: usize) -> (r: Self)
        ensures
            r.spec_index() == x,
    ;

    /// The reserved "unset" marker: the domain's maximum value.
    fn sentinel() -> (r: Self)
        ensures
            r.spec_index() == usize::MAX,
    ;
}

/// An ordered pair of vertices.
pub trait Edge<V>: Sized {
    spec fn spec_src(&self) -> V;

    spec fn spec_dst(&self) -> V;

    fn src(&self) -> (r: V)
        ensures
            r == self.spec_src(),
    ;

    fn dst(&self) -> (r: V)
        ensures
            r == self.spec_dst(),
    ;
}

/// An edge carrying a weight.
pub trait WeightedEdge<V, W>: Edge<V> {
    spec fn spec_weight(&self) -> W;

    fn weight(&self) -> (r: W)
        ensures
            r == self.spec_weight(),
    ;
}

/// The capability contract every graph representation satisfies.
///
/// A graph is modelled by two sequences of neighbor rows: forward rows
/// (`out_rows`) and backward rows (`in_rows`).  Both are strictly
/// ascending per row, store only ids below the vertex count, and agree
/// with each other: `w` is a forward neighbor of `u` exactly when `u`
/// is a backward neighbor of `w`.
pub trait Graph: Sized {
    /// Forward adjacency: row `v` holds the successors of `v`.
    spec fn out_rows(&self) -> Seq<Seq<usize>>;

    /// Backward adjacency: row `v` holds the predecessors of `v`.
    spec fn in_rows(&self) -> Seq<Seq<usize>>;

    /// The edge count the representation reports.
    spec fn spec_ne(&self) -> int;

    /// Validity of the representation's internal storage.
    spec fn wf(&self) -> bool;

    /// A valid representation has well-formed, mutually consistent rows.
    proof fn lemma_wf(&self)
        requires
            self.wf(),
        ensures
            rows_wf(self.out_rows()),
            rows_wf(self.in_rows()),
            self.in_rows().len() == self.out_rows().len(),
            forall|u: usize, w: usize|
                u < self.out_rows().len() && w < self.out_rows().len() ==> ((#[trigger] self.out_rows()[u as int].contains(w))
                    <==> self.in_rows()[w as int].contains(u)),
    ;

    /// The number of vertices.
    fn nv(&self) -> (r: usize)
        requires
            self.wf(),
        ensures
            r == self.out_rows().len(),
    ;

    /// The number of edges.
    fn ne(&self) -> (r: usize)
        requires
            self.wf(),
        ensures
            r == self.spec_ne(),
    ;

    /// All vertices `[0, N)` as a lazy, restartable range.
    fn vertices(&self) -> (r: core::ops::Range<usize>)
        requires
            self.wf(),
        ensures
            r.start == 0,
            r.end == self.out_rows().len(),
    ;

    /// The number of successors of `v`; `OutOfRange` exactly when `v` is
    /// at or above the vertex count.
    fn out_degree(&self, v: usize) -> (r: Result<usize, GraphError>)
        requires
            self.wf(),
        ensures
            match r {
                Ok(d) => v < self.out_rows().len() && d == self.out_rows()[v as int].len(),
                Err(e) => v >= self.out_rows().len() && e == GraphError::OutOfRange,
            },
    ;

    /// The number of predecessors of `v`; `OutOfRange` exactly when `v` is
    /// at or above the vertex count.
    fn in_degree(&self, v: usize) -> (r: Result<usize, GraphError>)
        requires
            self.wf(),
        ensures
            match r {
                Ok(d) => v < self.in_rows().len() && d == self.in_rows()[v as int].len(),
                Err(e) => v >= self.in_rows().len() && e == GraphError::OutOfRange,
            },
    ;

    /// The strictly ascending successor row of `v`; `OutOfRange` exactly
    /// when `v` is at or above the vertex count.
    fn out_neighbors<'a>(&'a self, v: usize) -> (r: Result<&'a [usize], GraphError>)
        requires
            self.wf(),
        ensures
            match r {
                Ok(s) => v < self.out_rows().len() && s@ == self.out_rows()[v as int],
                Err(e) => v >= self.out_rows().len() && e == GraphError::OutOfRange,
            },
    ;

    /// The strictly ascending predecessor row of `v`; `OutOfRange` exactly
    /// when `v` is at or above the vertex count.
    fn in_neighbors<'a>(&'a self, v: usize) -> (r: Result<&'a [usize], GraphError>)
        requires
            self.wf(),
        ensures
            match r {
                Ok(s) => v < self.in_rows().len() && s@ == self.in_rows()[v as int],
                Err(e) => v >= self.in_rows().len() && e == GraphError::OutOfRange,
            },
    ;

    /// Whether the edge is present, probing the cheaper of the two rows
    /// that could witness it; `OutOfRange` exactly when an endpoint is
    /// at or above the vertex count.
    fn has_edge(&self, e: SimpleEdge<usize>) -> (r: Result<bool, GraphError>)
        requires
            self.wf(),
        ensures
            match r {
                Ok(b) => e.src < self.out_rows().len() && e.dst < self.out_rows().len() && b
                    == self.out_rows()[e.src as int].contains(e.dst),
                Err(err) => (e.src >= self.out_rows().len() || e.dst >= self.out_rows().len())
                    && err == GraphError::OutOfRange,
            },
    ;
}

} // verus!
