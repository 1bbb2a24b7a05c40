//! Row-compressed sparse adjacency storage.
//!
//! A `GraphMatrix` keeps, for every vertex, a strictly ascending row of
//! neighbor ids in one contiguous buffer, with a separate array of row
//! start offsets.  Rows are immutable once built; membership tests are
//! binary searches over a single row.

use vstd::prelude::*;

verus! {

/// A sequence of vertex ids in strictly ascending order.
pub open spec fn strictly_sorted(s: Seq<usize>) -> bool {
    forall|i: int, j: int| 0 <= i < j < s.len() ==> s[i] < s[j]
}

/// Every row is strictly ascending and every stored id is below the row count.
pub open spec fn rows_wf(rows: Seq<Seq<usize>>) -> bool {
    &&& forall|v: int| 0 <= v < rows.len() ==> strictly_sorted(#[trigger] rows[v])
    &&& forall|v: int, k: int|
        0 <= v < rows.len() && 0 <= k < rows[v].len() ==> (#[trigger] rows[v][k]) < rows.len()
}

/// Total number of stored entries over all rows.
pub open spec fn total_entries(rows: Seq<Seq<usize>>) -> int
    decreases rows.len(),
{
    if rows.len() == 0 {
        0
    } else {
        total_entries(rows.drop_last()) + rows.last().len()
    }
}

/// Number of vertices needed to hold every endpoint of the edge list:
/// one more than the largest endpoint, or zero for an empty list.
pub open spec fn edges_dim(edges: Seq<(usize, usize)>) -> int
    decreases edges.len(),
{
    if edges.len() == 0 {
        0
    } else {
        let e = edges.last();
        let rest = edges_dim(edges.drop_last());
        let need = if e.0 >= e.1 {
            e.0 + 1
        } else {
            e.1 + 1
        };
        if rest >= need {
            rest
        } else {
            need
        }
    }
}

/// Every endpoint leaves room for the one-past-the-largest row count.
pub open spec fn edge_endpoints_ok(edges: Seq<(usize, usize)>) -> bool {
    forall|k: int|
        0 <= k < edges.len() ==> (#[trigger] edges[k]).0 < usize::MAX && edges[k].1 < usize::MAX
}

/// Every endpoint of the edge list is below `edges_dim`.
pub proof fn lemma_edges_dim_bounds(edges: Seq<(usize, usize)>)
    ensures
        forall|k: int|
            0 <= k < edges.len() ==> (#[trigger] edges[k]).0 < edges_dim(edges) && edges[k].1
                < edges_dim(edges),
    decreases edges.len(),
{
    if edges.len() > 0 {
        lemma_edges_dim_bounds(edges.drop_last());
        assert forall|k: int|
            0 <= k < edges.len() implies (#[trigger] edges[k]).0 < edges_dim(edges) && edges[k].1
            < edges_dim(edges) by {
            if k < edges.len() - 1 {
                assert(edges.drop_last()[k] == edges[k]);
            }
        }
    }
}

/// Growing an edge list never shrinks `edges_dim`.
pub proof fn lemma_edges_dim_take_monotone(edges: Seq<(usize, usize)>, k: int)
    requires
        0 <= k <= edges.len(),
    ensures
        edges_dim(edges.take(k)) <= edges_dim(edges),
    decreases edges.len() - k,
{
    if k < edges.len() {
        lemma_edges_dim_take_monotone(edges, k + 1);
        assert(edges.take(k + 1).drop_last() =~= edges.take(k));
    } else {
        assert(edges.take(k) =~= edges);
    }
}

/// Membership in a concatenation splits over the parts.
pub proof fn lemma_concat_contains<A>(a: Seq<A>, b: Seq<A>, x: A)
    ensures
        (a + b).contains(x) <==> (a.contains(x) || b.contains(x)),
{
    if (a + b).contains(x) {
        let i = choose|i: int| 0 <= i < (a + b).len() && (a + b)[i] == x;
        if i < a.len() {
            assert(a[i] == x);
        } else {
            assert(b[i - a.len()] == x);
        }
    }
    if a.contains(x) {
        let i = choose|i: int| 0 <= i < a.len() && a[i] == x;
        assert((a + b)[i] == x);
    }
    if b.contains(x) {
        let i = choose|i: int| 0 <= i < b.len() && b[i] == x;
        assert((a + b)[a.len() + i] == x);
    }
}

/// The extent of a concatenation is the larger of the two extents.
pub proof fn lemma_edges_dim_concat(a: Seq<(usize, usize)>, b: Seq<(usize, usize)>)
    ensures
        edges_dim(a + b) == if edges_dim(a) >= edges_dim(b) {
            edges_dim(a)
        } else {
            edges_dim(b)
        },
    decreases b.len(),
{
    if b.len() == 0 {
        assert(a + b =~= a);
    } else {
        lemma_edges_dim_concat(a, b.drop_last());
        assert((a + b).drop_last() =~= a + b.drop_last());
        assert((a + b).last() == b.last());
    }
}

/// Swapping both endpoints of every pair keeps the extent.
pub proof fn lemma_edges_dim_swapped(a: Seq<(usize, usize)>, b: Seq<(usize, usize)>)
    requires
        a.len() == b.len(),
        forall|k: int| 0 <= k < a.len() ==> (#[trigger] b[k]) == ((a[k].1, a[k].0)),
    ensures
        edges_dim(b) == edges_dim(a),
    decreases a.len(),
{
    if a.len() > 0 {
        assert forall|k: int| 0 <= k < a.len() - 1 implies (#[trigger] b.drop_last()[k]) == ((
            a.drop_last()[k].1,
            a.drop_last()[k].0,
        )) by {
            assert(b.drop_last()[k] == b[k]);
            assert(a.drop_last()[k] == a[k]);
        }
        lemma_edges_dim_swapped(a.drop_last(), b.drop_last());
        assert(b.last() == (a.last().1, a.last().0));
    }
}

/// A swapped pair is listed exactly when the original pair is.
pub proof fn lemma_swapped_contains(
    a: Seq<(usize, usize)>,
    b: Seq<(usize, usize)>,
    x: usize,
    y: usize,
)
    requires
        a.len() == b.len(),
        forall|k: int| 0 <= k < a.len() ==> (#[trigger] b[k]) == ((a[k].1, a[k].0)),
    ensures
        b.contains((x, y)) <==> a.contains((y, x)),
{
    if b.contains((x, y)) {
        let i = choose|i: int| 0 <= i < b.len() && b[i] == (x, y);
        assert(a[i] == (y, x));
    }
    if a.contains((y, x)) {
        let i = choose|i: int| 0 <= i < a.len() && a[i] == (y, x);
        assert(b[i] == (x, y));
    }
}

/// Insert `x` into a strictly ascending vector, keeping the order strict;
/// a value already present is left alone.
pub fn sorted_insert_dedup(row: &mut Vec<usize>, x: usize)
    requires
        strictly_sorted(old(row)@),
    ensures
        strictly_sorted(final(row)@),
        forall|w: usize| final(row)@.contains(w) <==> (old(row)@.contains(w) || w == x),
{
    let ghost orig = row@;
    let mut i: usize = 0;
    while i < row.len() && row[i] < x
        invariant
            0 <= i <= row@.len(),
            row@ == orig,
            strictly_sorted(row@),
            forall|j: int| 0 <= j < i ==> row@[j] < x,
        decreases row@.len() - i,
    {
        i = i + 1;
    }
    if i < row.len() && row[i] == x {
        proof {
            assert(row@.contains(x));
        }
        return ;
    }
    proof {
        // every position at or after i holds a value above x
        assert forall|j: int| i <= j < row@.len() implies row@[j] > x by {
            if j > i {
                assert(row@[i as int] < row@[j]);
            }
        }
    }
    row.insert(i, x);
    proof {
        orig.insert_ensures(i as int, x);
        assert(row@ == orig.insert(i as int, x));
        assert forall|p: int, q: int| 0 <= p < q < row@.len() implies row@[p] < row@[q] by {
            assert(row@[p] == if p < i {
                orig[p]
            } else if p == i {
                x
            } else {
                orig[p - 1]
            });
            assert(row@[q] == if q < i {
                orig[q]
            } else if q == i {
                x
            } else {
                orig[q - 1]
            });
        }
        assert forall|w: usize| row@.contains(w) implies (orig.contains(w) || w == x) by {
            let p = choose|p: int| 0 <= p < row@.len() && row@[p] == w;
            if p < i {
                assert(orig[p] == w);
            } else if p > i {
                assert(orig[p - 1] == w);
            }
        }
        assert forall|w: usize| (orig.contains(w) || w == x) implies row@.contains(w) by {
            if w == x {
                assert(row@[i as int] == x);
            } else {
                let p = choose|p: int| 0 <= p < orig.len() && orig[p] == w;
                if p < i {
                    assert(row@[p] == w);
                } else {
                    assert(row@[p + 1] == w);
                }
            }
        }
    }
}

/// Binary search for `x` in a strictly ascending slice.
pub fn slice_contains_sorted(s: &[usize], x: usize) -> (r: bool)
    requires
        strictly_sorted(s@),
    ensures
        r == s@.contains(x),
{
    let mut lo: usize = 0;
    let mut hi: usize = s.len();
    while lo < hi
        invariant
            0 <= lo <= hi <= s@.len(),
            strictly_sorted(s@),
            forall|i: int| 0 <= i < lo ==> s@[i] < x,
            forall|i: int| hi <= i < s@.len() ==> s@[i] > x,
        decreases hi - lo,
    {
        let mid = lo + (hi - lo) / 2;
        let v = s[mid];
        if v == x {
            proof {
                assert(s@.contains(x));
            }
            return true;
        } else if v < x {
            proof {
                assert forall|i: int| 0 <= i < mid + 1 implies s@[i] < x by {
                    if i < mid {
                        assert(s@[i] < s@[mid as int]);
                    }
                }
            }
            lo = mid + 1;
        } else {
            proof {
                assert forall|i: int| mid <= i < s@.len() implies s@[i] > x by {
                    if i > mid {
                        assert(s@[mid as int] < s@[i]);
                    }
                }
            }
            hi = mid;
        }
    }
    proof {
        assert forall|i: int| 0 <= i < s@.len() implies s@[i] != x by {}
    }
    false
}

/// The row of vertex `v` cut out of a flat index buffer by the offsets.
pub open spec fn csr_row(indptr: Seq<usize>, indices: Seq<usize>, v: int) -> Seq<usize> {
    indices.subrange(indptr[v] as int, indptr[v + 1] as int)
}

/// All rows cut out of a flat index buffer by the offsets.
pub open spec fn csr_rows(indptr: Seq<usize>, indices: Seq<usize>) -> Seq<Seq<usize>> {
    Seq::new((indptr.len() - 1) as nat, |v: int| csr_row(indptr, indices, v))
}

/// Membership in a sequence extended by one element.
pub proof fn lemma_push_contains<A>(s: Seq<A>, e: A, x: A)
    ensures
        s.push(e).contains(x) <==> (s.contains(x) || x == e),
{
    if s.push(e).contains(x) {
        let i = choose|i: int| 0 <= i < s.push(e).len() && s.push(e)[i] == x;
        if i < s.len() {
            assert(s[i] == x);
        }
    }
    if s.contains(x) {
        let i = choose|i: int| 0 <= i < s.len() && s[i] == x;
        assert(s.push(e)[i] == x);
    } else if x == e {
        assert(s.push(e)[s.len() as int] == x);
    }
}

pub proof fn lemma_monotone_prefix(p: Seq<usize>, i: int, j: int)
    requires
        forall|t: int| 0 <= t < p.len() - 1 ==> (#[trigger] p[t]) <= p[t + 1],
        0 <= i <= j < p.len(),
    ensures
        p[i] <= p[j],
    decreases j - i,
{
    if i < j {
        lemma_monotone_prefix(p, i + 1, j);
    }
}

/// Sparse row-compressed matrix: `indptr[v] .. indptr[v + 1]` delimits the
/// neighbor row of vertex `v` inside `indices`.
pub struct GraphMatrix {
    indptr: Vec<usize>,
    indices: Vec<usize>,
}

impl View for GraphMatrix {
    type V = Seq<Seq<usize>>;

    closed spec fn view(&self) -> Seq<Seq<usize>> {
        Seq::new((self.indptr@.len() - 1) as nat, |v: int| self.spec_row(v))
    }
}

impl GraphMatrix {
    pub closed spec fn spec_dim(&self) -> int {
        self.indptr@.len() - 1
    }

    pub closed spec fn spec_row(&self, v: int) -> Seq<usize> {
        csr_row(self.indptr@, self.indices@, v)
    }

    /// Internal validity: offsets start at zero, grow monotonically, end at
    /// the buffer length, and the rows they cut out satisfy `rows_wf`.
    pub closed spec fn wf(&self) -> bool {
        &&& self.indptr@.len() >= 1
        &&& self.indptr@[0] == 0
        &&& self.indptr@.last() == self.indices@.len()
        &&& forall|i: int| 0 <= i < self.spec_dim() ==> (#[trigger] self.indptr@[i]) <= self.indptr@[i + 1]
        &&& rows_wf(self@)
    }

    /// A well-formed matrix has well-formed rows.
    pub proof fn lemma_wf_rows(&self)
        requires
            self.wf(),
        ensures
            rows_wf(self@),
    {
    }

    proof fn lemma_indptr_bounds(&self, i: int, j: int)
        requires
            self.wf(),
            0 <= i <= j <= self.spec_dim(),
        ensures
            self.indptr@[i] <= self.indptr@[j],
        decreases j - i,
    {
        if i < j {
            self.lemma_indptr_bounds(i + 1, j);
        }
    }

    /// The number of vertices (rows).
    pub fn dim(&self) -> (r: usize)
        requires
            self.wf(),
        ensures
            r == self@.len(),
    {
        self.indptr.len() - 1
    }

    proof fn lemma_entries_prefix(&self, k: int)
        requires
            self.wf(),
            0 <= k <= self.spec_dim(),
        ensures
            total_entries(self@.take(k)) == self.indptr@[k],
        decreases k,
    {
        if k == 0 {
            assert(self@.take(0) =~= Seq::<Seq<usize>>::empty());
        } else {
            self.lemma_entries_prefix(k - 1);
            assert(self@.take(k).drop_last() =~= self@.take(k - 1));
            assert(self@.take(k).last() == self@[k - 1]);
            self.lemma_indptr_bounds(k - 1, k);
            self.lemma_indptr_bounds(k, self.spec_dim());
            assert(self@[k - 1] == self.spec_row(k - 1));
            assert(self@[k - 1].len() == self.indptr@[k] - self.indptr@[k - 1]);
        }
    }

    /// The matrix buffer holds exactly the entries of the view's rows.
    proof fn lemma_total_entries(&self)
        requires
            self.wf(),
        ensures
            total_entries(self@) == self.indices@.len(),
    {
        self.lemma_entries_prefix(self.spec_dim());
        assert(self@.take(self.spec_dim()) =~= self@);
    }

    /// The number of stored entries.
    pub fn n(&self) -> (r: usize)
        requires
            self.wf(),
        ensures
            r == total_entries(self@),
    {
        proof {
            self.lemma_total_entries();
        }
        self.indices.len()
    }

    /// The length of vertex `v`'s neighbor row.
    pub fn row_len(&self, v: usize) -> (r: usize)
        requires
            self.wf(),
            v < self@.len(),
        ensures
            r == self@[v as int].len(),
    {
        proof {
            assert(self@.len() == self.indptr@.len() - 1);
            assert(self.indptr@.len() == self.indptr.len());
            self.lemma_indptr_bounds(v as int, v as int + 1);
            self.lemma_indptr_bounds(v as int + 1, self.spec_dim());
        }
        self.indptr[v + 1] - self.indptr[v]
    }

    /// Vertex `v`'s neighbor row, strictly ascending.
    pub fn row<'a>(&'a self, v: usize) -> (r: &'a [usize])
        requires
            self.wf(),
            v < self@.len(),
        ensures
            r@ == self@[v as int],
    {
        proof {
            assert(self@.len() == self.indptr@.len() - 1);
            assert(self.indptr@.len() == self.indptr.len());
            self.lemma_indptr_bounds(v as int, v as int + 1);
            self.lemma_indptr_bounds(v as int + 1, self.spec_dim());
        }
        let a = self.indptr[v];
        let b = self.indptr[v + 1];
        vstd::slice::slice_subrange(self.indices.as_slice(), a, b)
    }

    /// Whether the entry `(v, w)` is stored, by binary search over row `v`.
    pub fn has_index(&self, v: usize, w: usize) -> (r: bool)
        requires
            self.wf(),
            v < self@.len(),
        ensures
            r == self@[v as int].contains(w),
    {
        let row = self.row(v);
        slice_contains_sorted(row, w)
    }

    /// Assemble directly from pre-built offset and index arrays.
    pub fn new(indptr: Vec<usize>, indices: Vec<usize>) -> (r: GraphMatrix)
        requires
            indptr@.len() >= 1,
            indptr@[0] == 0,
            indptr@.last() == indices@.len(),
            forall|i: int| 0 <= i < indptr@.len() - 1 ==> (#[trigger] indptr@[i]) <= indptr@[i + 1],
            rows_wf(csr_rows(indptr@, indices@)),
        ensures
            r.wf(),
            r@ == csr_rows(indptr@, indices@),
    {
        let r = GraphMatrix { indptr, indices };
        proof {
            assert(r@ =~= csr_rows(r.indptr@, r.indices@));
        }
        r
    }

    /// Build the matrix from an edge list: the vertex count is one past the
    /// largest endpoint, and row `v` holds exactly the distinct `w` with
    /// `(v, w)` in the list, in strictly ascending order.
    /// One past the largest endpoint of the edge list.
    fn edges_extent(edges: &Vec<(usize, usize)>) -> (dim: usize)
        requires
            edge_endpoints_ok(edges@),
        ensures
            dim == edges_dim(edges@),
    {
        let n_edges = edges.len();
        let mut dim: usize = 0;
        for k in 0..n_edges
            invariant
                n_edges == edges@.len(),
                edge_endpoints_ok(edges@),
                dim == edges_dim(edges@.take(k as int)),
        {
            let (s, d) = edges[k];
            proof {
                assert(edges@[k as int].0 < usize::MAX);
            }
            let need = if s >= d {
                s + 1
            } else {
                d + 1
            };
            if need > dim {
                dim = need;
            }
            proof {
                assert(edges@.take(k + 1).drop_last() =~= edges@.take(k as int));
                assert(edges@.take(k + 1).last() == edges@[k as int]);
            }
        }
        proof {
            assert(edges@.take(n_edges as int) =~= edges@);
        }
        dim
    }

    /// The strictly ascending row of distinct successors of `v` in the list.
    fn build_row(edges: &Vec<(usize, usize)>, v: usize) -> (row: Vec<usize>)
        ensures
            strictly_sorted(row@),
            forall|w: usize| (#[trigger] row@.contains(w)) <==> edges@.contains((v, w)),
    {
        let n_edges = edges.len();
        let mut row: Vec<usize> = Vec::new();
        for k in 0..n_edges
            invariant
                n_edges == edges@.len(),
                strictly_sorted(row@),
                forall|w: usize|
                    (#[trigger] row@.contains(w)) <==> edges@.take(k as int).contains((v, w)),
        {
            let (s, d) = edges[k];
            if s == v {
                sorted_insert_dedup(&mut row, d);
            }
            proof {
                assert(edges@.take(k + 1) =~= edges@.take(k as int).push(edges@[k as int]));
                assert forall|w: usize| (#[trigger] row@.contains(w)) <==> edges@.take(
                    k + 1,
                ).contains((v, w)) by {
                    lemma_push_contains(edges@.take(k as int), edges@[k as int], (v, w));
                }
            }
        }
        proof {
            assert(edges@.take(n_edges as int) =~= edges@);
        }
        row
    }

    #[verifier::rlimit(80)]
    pub fn from_edges(edges: &Vec<(usize, usize)>) -> (r: GraphMatrix)
        requires
            edge_endpoints_ok(edges@),
        ensures
            r.wf(),
            r@.len() == edges_dim(edges@),
            forall|v: usize, w: usize|
                v < r@.len() ==> ((#[trigger] r@[v as int].contains(w)) <==> edges@.contains(
                    (v, w),
                )),
    {
        let n_edges = edges.len();
        let dim = Self::edges_extent(edges);
        proof {
            lemma_edges_dim_bounds(edges@);
        }
        let mut indptr: Vec<usize> = Vec::new();
        let mut indices: Vec<usize> = Vec::new();
        indptr.push(0);
        for v in 0..dim
            invariant
                n_edges == edges@.len(),
                edge_endpoints_ok(edges@),
                dim == edges_dim(edges@),
                forall|k: int|
                    0 <= k < edges@.len() ==> (#[trigger] edges@[k]).0 < dim && edges@[k].1 < dim,
                indptr@.len() == v + 1,
                indptr@[0] == 0,
                indptr@.last() == indices@.len(),
                forall|i: int| 0 <= i < v ==> (#[trigger] indptr@[i]) <= indptr@[i + 1],
                forall|t: int| 0 <= t < indices@.len() ==> (#[trigger] indices@[t]) < dim,
                forall|j: int|
                    0 <= j < v ==> strictly_sorted(#[trigger] csr_row(indptr@, indices@, j)),
                forall|j: usize, w: usize|
                    j < v ==> ((#[trigger] csr_row(indptr@, indices@, j as int).contains(w))
                        <==> edges@.contains((j, w))),
        {
            let mut row: Vec<usize> = Self::build_row(edges, v);
            proof {
                assert forall|t: int| 0 <= t < row@.len() implies row@[t] < dim by {
                    assert(row@.contains(row@[t]));
                    assert(edges@.contains((v, row@[t])));
                    let k = choose|k: int|
                        0 <= k < edges@.len() && edges@[k] == (v, row@[t]);
                    assert(edges@[k].1 < dim);
                }
            }
            let ghost old_indices = indices@;
            let ghost old_indptr = indptr@;
            let ghost the_row = row@;
            indices.append(&mut row);
            let total = indices.len();
            indptr.push(total);
            proof {
                assert(indices@ =~= old_indices + the_row);
                assert(indptr@ =~= old_indptr.push(total));
                assert(indptr@[v as int] == old_indices.len());
                assert(csr_row(indptr@, indices@, v as int) =~= the_row);
                assert forall|j: int| 0 <= j < v implies csr_row(indptr@, indices@, j) == csr_row(
                    old_indptr,
                    old_indices,
                    j,
                ) by {
                    lemma_monotone_prefix(old_indptr, j + 1, old_indptr.len() - 1);
                    assert(old_indptr[j + 1] <= old_indices.len());
                    lemma_monotone_prefix(old_indptr, j, j + 1);
                    assert(csr_row(indptr@, indices@, j) =~= csr_row(old_indptr, old_indices, j));
                }
                assert forall|j: int| 0 <= j < v + 1 implies strictly_sorted(
                    #[trigger] csr_row(indptr@, indices@, j),
                ) by {
                    if j < v {
                        assert(strictly_sorted(csr_row(old_indptr, old_indices, j)));
                    } else {
                        assert(csr_row(indptr@, indices@, j) == the_row);
                    }
                }
                assert forall|j: usize, w: usize| j < v + 1 implies ((#[trigger] csr_row(
                    indptr@,
                    indices@,
                    j as int,
                ).contains(w)) <==> edges@.contains((j, w))) by {
                    if j < v {
                        assert(csr_row(old_indptr, old_indices, j as int).contains(w)
                            <==> edges@.contains((j, w)));
                    } else {
                        assert(csr_row(indptr@, indices@, j as int) == the_row);
                        assert(the_row.contains(w) <==> edges@.contains((v, w)));
                    }
                }
            }
        }
        proof {
            if dim == 0 {
                assert(edges@.len() == 0) by {
                    if edges@.len() > 0 {
                        assert(edges@[0].0 < dim);
                    }
                }
            }
        }
        let r = GraphMatrix { indptr, indices };
        proof {
            assert(r.indptr@.len() == dim + 1);
            assert(r.spec_dim() == dim);
            assert(r@.len() == dim);
            assert forall|j: int| 0 <= j < r@.len() implies strictly_sorted(#[trigger] r@[j]) by {
                assert(r@[j] == csr_row(r.indptr@, r.indices@, j));
                assert(strictly_sorted(csr_row(r.indptr@, r.indices@, j)));
            }
            assert forall|j: int, t: int|
                0 <= j < r@.len() && 0 <= t < r@[j].len() implies (#[trigger] r@[j][t])
                < r@.len() by {
                assert(r@[j] == csr_row(r.indptr@, r.indices@, j));
                lemma_monotone_prefix(r.indptr@, j, j + 1);
                lemma_monotone_prefix(r.indptr@, j + 1, r.indptr@.len() - 1);
                assert(r@[j][t] == r.indices@[r.indptr@[j] + t]);
            }
            assert(rows_wf(r@));
            assert(r.wf());
            assert forall|v: usize, w: usize| v < r@.len() implies ((#[trigger] r@[
                v as int
            ].contains(w)) <==> edges@.contains((v, w))) by {
                assert(r@[v as int] == csr_row(r.indptr@, r.indices@, v as int));
                assert(csr_row(r.indptr@, r.indices@, v as int).contains(w) <==> edges@.contains(
                    (v, w),
                ));
            }
        }
        r
    }
}

} // verus!
