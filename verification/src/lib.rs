use vstd::prelude::*;

pub mod bitset;
pub mod matrix;
pub mod simplegraphs;
pub mod pqueue;
pub mod sorting;
pub mod traits;
pub mod triangles;
pub mod traversals;

use crate::matrix::{
    edge_endpoints_ok, edges_dim, lemma_concat_contains, lemma_edges_dim_bounds,
    lemma_edges_dim_concat, lemma_edges_dim_swapped, lemma_swapped_contains, rows_wf,
    total_entries, GraphMatrix,
};
use crate::simplegraphs::SimpleEdge;
use crate::traits::Graph;
use crate::triangles::rows_symmetric;

verus! {

/// Failure kinds for graph construction and queries.
///
/// `OutOfRange` reports a vertex id at or above the graph's vertex count.
/// `MalformedInput` reports an edge list whose text form could not be read;
/// it is produced by the I/O layer around this library.
#[derive(Clone, Copy, Debug, PartialEq, Eq, Structural)]
pub enum GraphError {
    OutOfRange,
    MalformedInput,
}

/// The edge list with every pair reversed, in the same order.
fn reversed_edges(edges: &Vec<(usize, usize)>) -> (r: Vec<(usize, usize)>)
    ensures
        r@.len() == edges@.len(),
        forall|k: int| 0 <= k < edges@.len() ==> (#[trigger] r@[k]) == ((edges@[k].1, edges@[k].0)),
{
    let n = edges.len();
    let mut r: Vec<(usize, usize)> = Vec::new();
    for k in 0..n
        invariant
            n == edges@.len(),
            r@.len() == k,
            forall|t: int| 0 <= t < k ==> (#[trigger] r@[t]) == ((edges@[t].1, edges@[t].0)),
    {
        let (s, d) = edges[k];
        r.push((d, s));
    }
    r
}

/// A directed graph over dual forward/backward row-compressed adjacency.
pub struct StaticDiGraph {
    fadj: GraphMatrix,
    badj: GraphMatrix,
}

impl StaticDiGraph {
    pub closed spec fn inv(&self) -> bool {
        &&& self.fadj.wf()
        &&& self.badj.wf()
        &&& self.badj@.len() == self.fadj@.len()
        &&& forall|u: usize, w: usize|
            u < self.fadj@.len() && w < self.fadj@.len() ==> ((#[trigger] self.fadj@[
                u as int
            ].contains(w)) <==> self.badj@[w as int].contains(u))
    }

    /// Build the dual adjacency from an edge list.  The vertex count is one
    /// past the largest endpoint; the forward rows hold exactly the listed
    /// pairs and the backward rows mirror them.
    pub fn from_edges(edges: &Vec<(usize, usize)>) -> (r: Self)
        requires
            edge_endpoints_ok(edges@),
        ensures
            r.wf(),
            r.out_rows().len() == edges_dim(edges@),
            forall|v: usize, w: usize|
                v < r.out_rows().len() ==> ((#[trigger] r.out_rows()[v as int].contains(w))
                    <==> edges@.contains((v, w))),
    {
        let bedges = reversed_edges(edges);
        proof {
            assert forall|k: int| 0 <= k < bedges@.len() implies (#[trigger] bedges@[k]).0
                < usize::MAX && bedges@[k].1 < usize::MAX by {
                assert(edges@[k].0 < usize::MAX && edges@[k].1 < usize::MAX);
            }
            lemma_edges_dim_swapped(edges@, bedges@);
        }
        let fadj = GraphMatrix::from_edges(edges);
        let badj = GraphMatrix::from_edges(&bedges);
        let r = StaticDiGraph { fadj, badj };
        proof {
            assert forall|u: usize, w: usize| u < r.fadj@.len() && w < r.fadj@.len() implies ((
            #[trigger] r.fadj@[u as int].contains(w)) <==> r.badj@[w as int].contains(u)) by {
                lemma_swapped_contains(edges@, bedges@, w, u);
            }
        }
        r
    }
}

impl Graph for StaticDiGraph {
    closed spec fn out_rows(&self) -> Seq<Seq<usize>> {
        self.fadj@
    }

    closed spec fn in_rows(&self) -> Seq<Seq<usize>> {
        self.badj@
    }

    closed spec fn spec_ne(&self) -> int {
        total_entries(self.fadj@)
    }

    closed spec fn wf(&self) -> bool {
        self.inv()
    }

    proof fn lemma_wf(&self) {
        self.fadj.lemma_wf_rows();
        self.badj.lemma_wf_rows();
    }

    fn nv(&self) -> (r: usize) {
        self.fadj.dim()
    }

    fn ne(&self) -> (r: usize) {
        self.fadj.n()
    }

    fn vertices(&self) -> (r: core::ops::Range<usize>) {
        let n = self.fadj.dim();
        0..n
    }

    fn out_degree(&self, v: usize) -> (r: Result<usize, GraphError>) {
        if v < self.fadj.dim() {
            Ok(self.fadj.row_len(v))
        } else {
            Err(GraphError::OutOfRange)
        }
    }

    fn in_degree(&self, v: usize) -> (r: Result<usize, GraphError>) {
        if v < self.badj.dim() {
            Ok(self.badj.row_len(v))
        } else {
            Err(GraphError::OutOfRange)
        }
    }

    fn out_neighbors<'a>(&'a self, v: usize) -> (r: Result<&'a [usize], GraphError>) {
        if v < self.fadj.dim() {
            Ok(self.fadj.row(v))
        } else {
            Err(GraphError::OutOfRange)
        }
    }

    fn in_neighbors<'a>(&'a self, v: usize) -> (r: Result<&'a [usize], GraphError>) {
        if v < self.badj.dim() {
            Ok(self.badj.row(v))
        } else {
            Err(GraphError::OutOfRange)
        }
    }

    fn has_edge(&self, e: SimpleEdge<usize>) -> (r: Result<bool, GraphError>) {
        let s = e.src;
        let d = e.dst;
        let n = self.fadj.dim();
        if s >= n || d >= n {
            return Err(GraphError::OutOfRange);
        }
        let d1 = self.fadj.row_len(s);
        let d2 = self.fadj.row_len(d);
        if d1 < d2 {
            Ok(self.fadj.has_index(s, d))
        } else {
            Ok(self.badj.has_index(d, s))
        }
    }
}

/// An undirected graph over a single symmetric row-compressed adjacency.
pub struct StaticGraph {
    adj: GraphMatrix,
}

impl StaticGraph {
    pub closed spec fn inv(&self) -> bool {
        &&& self.adj.wf()
        &&& forall|u: usize, w: usize|
            u < self.adj@.len() && w < self.adj@.len() ==> ((#[trigger] self.adj@[
                u as int
            ].contains(w)) <==> self.adj@[w as int].contains(u))
    }

    /// Build the symmetric adjacency from an edge list: every listed pair is
    /// inserted in both directions.
    pub fn from_edges(edges: &Vec<(usize, usize)>) -> (r: Self)
        requires
            edge_endpoints_ok(edges@),
        ensures
            r.wf(),
            r.out_rows().len() == edges_dim(edges@),
            forall|v: usize, w: usize|
                v < r.out_rows().len() ==> ((#[trigger] r.out_rows()[v as int].contains(w))
                    <==> (edges@.contains((v, w)) || edges@.contains((w, v)))),
    {
        let bedges = reversed_edges(edges);
        let mut dedges: Vec<(usize, usize)> = Vec::new();
        let mut fcopy: Vec<(usize, usize)> = Vec::new();
        let n = edges.len();
        for k in 0..n
            invariant
                n == edges@.len(),
                fcopy@ =~= edges@.take(k as int),
        {
            let (s, d) = edges[k];
            fcopy.push((s, d));
            proof {
                assert(fcopy@ =~= edges@.take(k + 1));
            }
        }
        proof {
            assert(fcopy@ =~= edges@);
        }
        dedges.append(&mut fcopy);
        let mut bcopy = bedges;
        let ghost bseq = bcopy@;
        dedges.append(&mut bcopy);
        proof {
            assert(dedges@ =~= edges@ + bseq);
            assert forall|k: int| 0 <= k < dedges@.len() implies (#[trigger] dedges@[k]).0
                < usize::MAX && dedges@[k].1 < usize::MAX by {
                if k < edges@.len() {
                    assert(edges@[k].0 < usize::MAX && edges@[k].1 < usize::MAX);
                } else {
                    assert(edges@[k - edges@.len()].0 < usize::MAX && edges@[k - edges@.len()].1
                        < usize::MAX);
                }
            }
            lemma_edges_dim_swapped(edges@, bseq);
            lemma_edges_dim_concat(edges@, bseq);
        }
        let adj = GraphMatrix::from_edges(&dedges);
        let r = StaticGraph { adj };
        proof {
            assert forall|v: usize, w: usize| v < r.adj@.len() implies ((#[trigger] r.adj@[
            v as int].contains(w)) <==> (edges@.contains((v, w)) || edges@.contains((w, v)))) by {
                lemma_concat_contains(edges@, bseq, (v, w));
                lemma_swapped_contains(edges@, bseq, v, w);
            }
            assert forall|u: usize, w: usize| u < r.adj@.len() && w < r.adj@.len() implies ((
            #[trigger] r.adj@[u as int].contains(w)) <==> r.adj@[w as int].contains(u)) by {
                lemma_concat_contains(edges@, bseq, (u, w));
                lemma_concat_contains(edges@, bseq, (w, u));
                lemma_swapped_contains(edges@, bseq, u, w);
                lemma_swapped_contains(edges@, bseq, w, u);
            }
        }
        r
    }
}

impl Graph for StaticGraph {
    closed spec fn out_rows(&self) -> Seq<Seq<usize>> {
        self.adj@
    }

    closed spec fn in_rows(&self) -> Seq<Seq<usize>> {
        self.adj@
    }

    closed spec fn spec_ne(&self) -> int {
        total_entries(self.adj@) / 2
    }

    closed spec fn wf(&self) -> bool {
        self.inv()
    }

    proof fn lemma_wf(&self) {
        self.adj.lemma_wf_rows();
    }

    fn nv(&self) -> (r: usize) {
        self.adj.dim()
    }

    fn ne(&self) -> (r: usize) {
        self.adj.n() / 2
    }

    fn vertices(&self) -> (r: core::ops::Range<usize>) {
        let n = self.adj.dim();
        0..n
    }

    fn out_degree(&self, v: usize) -> (r: Result<usize, GraphError>) {
        if v < self.adj.dim() {
            Ok(self.adj.row_len(v))
        } else {
            Err(GraphError::OutOfRange)
        }
    }

    fn in_degree(&self, v: usize) -> (r: Result<usize, GraphError>) {
        self.out_degree(v)
    }

    fn out_neighbors<'a>(&'a self, v: usize) -> (r: Result<&'a [usize], GraphError>) {
        if v < self.adj.dim() {
            Ok(self.adj.row(v))
        } else {
            Err(GraphError::OutOfRange)
        }
    }

    fn in_neighbors<'a>(&'a self, v: usize) -> (r: Result<&'a [usize], GraphError>) {
        self.out_neighbors(v)
    }

    fn has_edge(&self, e: SimpleEdge<usize>) -> (r: Result<bool, GraphError>) {
        let s = e.src;
        let d = e.dst;
        let n = self.adj.dim();
        if s >= n || d >= n {
            return Err(GraphError::OutOfRange);
        }
        let d1 = self.adj.row_len(s);
        let d2 = self.adj.row_len(d);
        if d1 < d2 {
            Ok(self.adj.has_index(s, d))
        } else {
            Ok(self.adj.has_index(d, s))
        }
    }
}

/// What a directed graph's `ne` reports: the number of stored forward
/// entries, one per distinct listed edge.
pub proof fn lemma_ne_digraph(g: StaticDiGraph)
    ensures
        g.spec_ne() == total_entries(g.out_rows()),
{
}

/// What an undirected graph's `ne` reports: half the stored entries,
/// since every edge is stored in both directions.
pub proof fn lemma_ne_undirected(g: StaticGraph)
    ensures
        g.spec_ne() == total_entries(g.out_rows()) / 2,
{
}

/// Law: a directed graph built from an edge list answers `has_edge`
/// positively for every listed pair — the rows of the built graph hold
/// exactly the listed pairs, so each listed pair is in range and present.
pub proof fn lemma_built_edges_present(
    g: StaticDiGraph,
    edges: Seq<(usize, usize)>,
    u: usize,
    w: usize,
)
    requires
        g.out_rows().len() == edges_dim(edges),
        forall|v: usize, x: usize|
            v < g.out_rows().len() ==> ((#[trigger] g.out_rows()[v as int].contains(x))
                <==> edges.contains((v, x))),
        edges.contains((u, w)),
    ensures
        u < g.out_rows().len(),
        w < g.out_rows().len(),
        g.out_rows()[u as int].contains(w),
{
    lemma_edges_dim_bounds(edges);
    let k = choose|k: int| 0 <= k < edges.len() && edges[k] == (u, w);
    assert(edges[k].0 < edges_dim(edges));
}

/// Law: in an undirected graph the backward rows are the forward rows —
/// so `in_degree` equals `out_degree` everywhere — and edge membership is
/// symmetric.
pub proof fn lemma_undirected_symmetric(g: StaticGraph, u: usize, w: usize)
    requires
        g.wf(),
        u < g.out_rows().len(),
        w < g.out_rows().len(),
    ensures
        g.in_rows() == g.out_rows(),
        g.out_rows()[u as int].contains(w) <==> g.out_rows()[w as int].contains(u),
{
}

/// An undirected graph's whole row table is symmetric.
pub proof fn lemma_undirected_rows_symmetric(g: StaticGraph)
    requires
        g.wf(),
    ensures
        rows_symmetric(g.out_rows()),
{
    assert forall|a: usize, b: usize|
        a < g.out_rows().len() && b < g.out_rows().len() implies ((#[trigger] g.out_rows()[
        a as int
    ].contains(b)) <==> g.out_rows()[b as int].contains(a)) by {
        lemma_undirected_symmetric(g, a, b);
    }
}

} // verus!
