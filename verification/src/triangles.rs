//! Triangle counting over a degree-oriented edge orientation.
//!
//! Every undirected edge is oriented toward its endpoint higher in the
//! (degree, id) lexicographic order.  Each triangle then has exactly one
//! vertex from which both others are reachable in one oriented step, so
//! counting, for every vertex, the linked pairs inside its oriented row
//! finds every triangle exactly once.

use crate::matrix::{
    csr_row, csr_rows, lemma_monotone_prefix, rows_wf, slice_contains_sorted, strictly_sorted,
    total_entries, GraphMatrix,
};
use crate::traits::Graph;
use crate::StaticGraph;
use rayon::iter::{
    IndexedParallelIterator, IntoParallelIterator, IntoParallelRefIterator, ParallelIterator,
};
use vstd::prelude::*;

verus! {

/// Degree-table order: `b` strictly above `a` by (degree, id).
pub open spec fn keep_order(degs: Seq<usize>, a: usize, b: usize) -> bool {
    degs[b as int] > degs[a as int] || (degs[b as int] == degs[a as int] && b > a)
}

/// Per-vertex degrees of a row table.
pub open spec fn degrees_of(rows: Seq<Seq<usize>>) -> Seq<usize> {
    Seq::new(rows.len(), |u: int| rows[u].len() as usize)
}

/// The first `k` entries of `u`'s row, narrowed to the neighbors that
/// stand strictly above `u` in the (degree, id) order.
pub open spec fn dodg_row_rec(rows: Seq<Seq<usize>>, u: usize, k: int) -> Seq<usize>
    decreases k,
{
    if k <= 0 {
        Seq::empty()
    } else {
        let prefix = dodg_row_rec(rows, u, k - 1);
        let b = rows[u as int][k - 1];
        if keep_order(degrees_of(rows), u, b) {
            prefix.push(b)
        } else {
            prefix
        }
    }
}

/// The degree-oriented row of `u`: its neighbors strictly above it in
/// the (degree, id) order, kept in their original ascending order.
pub open spec fn spec_dodg_row(rows: Seq<Seq<usize>>, u: usize) -> Seq<usize> {
    dodg_row_rec(rows, u, rows[u as int].len() as int)
}

/// The narrowed prefix keeps the strict order, keeps only listed
/// neighbors above `u`, and never grows past `k`.
pub proof fn lemma_dodg_row_rec_props(rows: Seq<Seq<usize>>, u: usize, k: int)
    requires
        strictly_sorted(rows[u as int]),
        0 <= k <= rows[u as int].len(),
    ensures
        strictly_sorted(dodg_row_rec(rows, u, k)),
        dodg_row_rec(rows, u, k).len() <= k,
        forall|x: usize|
            #[trigger] dodg_row_rec(rows, u, k).contains(x) <==> (exists|t: int|
                0 <= t < k && rows[u as int][t] == x && keep_order(degrees_of(rows), u, x)),
    decreases k,
{
    if k > 0 {
        lemma_dodg_row_rec_props(rows, u, k - 1);
        let prefix = dodg_row_rec(rows, u, k - 1);
        let b = rows[u as int][k - 1];
        let cur = dodg_row_rec(rows, u, k);
        if keep_order(degrees_of(rows), u, b) {
            assert(cur == prefix.push(b));
            assert forall|p: int, q: int| 0 <= p < q < cur.len() implies cur[p] < cur[q] by {
                if q < cur.len() - 1 {
                    assert(prefix[p] < prefix[q]);
                } else {
                    assert(cur[p] == prefix[p]);
                    assert(prefix.contains(prefix[p]));
                    let t = choose|t: int|
                        0 <= t < k - 1 && rows[u as int][t] == prefix[p] && keep_order(
                            degrees_of(rows),
                            u,
                            prefix[p],
                        );
                    assert(rows[u as int][t] < rows[u as int][k - 1]);
                }
            }
            assert forall|x: usize| #[trigger] cur.contains(x) implies (exists|t: int|
                0 <= t < k && rows[u as int][t] == x && keep_order(degrees_of(rows), u, x)) by {
                crate::matrix::lemma_push_contains(prefix, b, x);
                if prefix.contains(x) {
                    let t = choose|t: int|
                        0 <= t < k - 1 && rows[u as int][t] == x && keep_order(
                            degrees_of(rows),
                            u,
                            x,
                        );
                    assert(0 <= t < k && rows[u as int][t] == x);
                } else {
                    assert(x == b);
                    assert(rows[u as int][k - 1] == x);
                }
            }
            assert forall|x: usize|
                (exists|t: int|
                    0 <= t < k && rows[u as int][t] == x && keep_order(
                        degrees_of(rows),
                        u,
                        x,
                    )) implies #[trigger] cur.contains(x) by {
                let t = choose|t: int|
                    0 <= t < k && rows[u as int][t] == x && keep_order(degrees_of(rows), u, x);
                crate::matrix::lemma_push_contains(prefix, b, x);
                if t < k - 1 {
                    assert(prefix.contains(x));
                }
            }
        } else {
            assert(cur == prefix);
            assert forall|x: usize| #[trigger] cur.contains(x) implies (exists|t: int|
                0 <= t < k && rows[u as int][t] == x && keep_order(degrees_of(rows), u, x)) by {
                let t = choose|t: int|
                    0 <= t < k - 1 && rows[u as int][t] == x && keep_order(
                        degrees_of(rows),
                        u,
                        x,
                    );
                assert(0 <= t < k && rows[u as int][t] == x);
            }
            assert forall|x: usize|
                (exists|t: int|
                    0 <= t < k && rows[u as int][t] == x && keep_order(
                        degrees_of(rows),
                        u,
                        x,
                    )) implies #[trigger] cur.contains(x) by {
                let t = choose|t: int|
                    0 <= t < k && rows[u as int][t] == x && keep_order(degrees_of(rows), u, x);
                if t == k - 1 {
                    assert(rows[u as int][t] == b);
                    assert(false);
                }
            }
        }
    }
}

/// All degree-oriented rows of a row table.
pub open spec fn dodg_of(rows: Seq<Seq<usize>>) -> Seq<Seq<usize>> {
    Seq::new(rows.len(), |u: int| spec_dodg_row(rows, u as usize))
}

/// Whether the pair `{v, w}` is linked in the orientation: the endpoint
/// lower in the order is looked up in the higher endpoint's oriented row.
pub open spec fn pair_hit(dodg: Seq<Seq<usize>>, degs: Seq<usize>, v: usize, w: usize) -> bool {
    if keep_order(degs, w, v) {
        dodg[w as int].contains(v)
    } else {
        dodg[v as int].contains(w)
    }
}

/// Hits among the position pairs of row `r` from `(i, j)` onward, in the
/// order the counting loops visit them.
pub open spec fn count_from(
    dodg: Seq<Seq<usize>>,
    degs: Seq<usize>,
    r: Seq<usize>,
    i: int,
    j: int,
) -> int
    decreases r.len() - i, r.len() + 1 - j,
{
    if i < 0 || j <= i {
        0
    } else if i >= r.len() {
        0
    } else if j >= r.len() {
        count_from(dodg, degs, r, i + 1, i + 2)
    } else {
        (if pair_hit(dodg, degs, r[i], r[j]) {
            1int
        } else {
            0int
        }) + count_from(dodg, degs, r, i, j + 1)
    }
}

/// Hits inside the oriented row of `u`.
pub open spec fn row_hits(dodg: Seq<Seq<usize>>, degs: Seq<usize>, u: int) -> int {
    count_from(dodg, degs, dodg[u], 0, 1)
}

/// Hits over the oriented rows of vertices `[lo, hi)`.
pub open spec fn block_hits(dodg: Seq<Seq<usize>>, degs: Seq<usize>, lo: int, hi: int) -> int
    decreases hi - lo,
{
    if lo >= hi {
        0
    } else {
        block_hits(dodg, degs, lo, hi - 1) + row_hits(dodg, degs, hi - 1)
    }
}

/// The count the engine reports for an oriented row table.
pub open spec fn oriented_triangle_count(dodg: Seq<Seq<usize>>, degs: Seq<usize>) -> int {
    block_hits(dodg, degs, 0, dodg.len() as int)
}

/// The number of triangles the engine reports for an undirected row
/// table: one hit per triangle, found at the pair of its two higher
/// endpoints inside the lowest endpoint's oriented row.
pub open spec fn spec_triangles(rows: Seq<Seq<usize>>) -> int {
    oriented_triangle_count(dodg_of(rows), degrees_of(rows))
}

/// Symmetry of a row table: every edge is stored in both directions.
pub open spec fn rows_symmetric(rows: Seq<Seq<usize>>) -> bool {
    forall|a: usize, b: usize|
        a < rows.len() && b < rows.len() ==> ((#[trigger] rows[a as int].contains(b))
            <==> rows[b as int].contains(a))
}

/// Law: what a counted pair means.  For two distinct entries of a
/// vertex's oriented row, the engine's probe — looking the lower
/// endpoint up in the higher endpoint's oriented row — answers exactly
/// whether the two endpoints are adjacent in the graph.  So each hit of
/// `spec_triangles` closes a genuine triangle: the base vertex is
/// adjacent to both entries by construction, and the probe certifies
/// the third edge.
pub proof fn lemma_pair_hit_is_adjacency(rows: Seq<Seq<usize>>, u: usize, v: usize, w: usize)
    requires
        rows.len() <= usize::MAX,
        rows_wf(rows),
        rows_symmetric(rows),
        u < rows.len(),
        spec_dodg_row(rows, u).contains(v),
        spec_dodg_row(rows, u).contains(w),
        v != w,
    ensures
        pair_hit(dodg_of(rows), degrees_of(rows), v, w) <==> rows[v as int].contains(w),
{
    let degs = degrees_of(rows);
    lemma_dodg_row_rec_props(rows, u, rows[u as int].len() as int);
    let tv = choose|t: int|
        0 <= t < rows[u as int].len() && rows[u as int][t] == v && keep_order(degs, u, v);
    let tw = choose|t: int|
        0 <= t < rows[u as int].len() && rows[u as int][t] == w && keep_order(degs, u, w);
    assert(v < rows.len());
    assert(w < rows.len());
    if keep_order(degs, w, v) {
        assert(dodg_of(rows)[w as int] == spec_dodg_row(rows, w));
        lemma_dodg_row_rec_props(rows, w, rows[w as int].len() as int);
        if rows[v as int].contains(w) {
            assert(rows[w as int].contains(v));
            let t = choose|t: int| 0 <= t < rows[w as int].len() && rows[w as int][t] == v;
            assert(spec_dodg_row(rows, w).contains(v));
        }
        if spec_dodg_row(rows, w).contains(v) {
            assert(rows[w as int].contains(v));
            assert(rows[v as int].contains(w));
        }
    } else {
        assert(keep_order(degs, v, w));
        assert(dodg_of(rows)[v as int] == spec_dodg_row(rows, v));
        lemma_dodg_row_rec_props(rows, v, rows[v as int].len() as int);
        if rows[v as int].contains(w) {
            let t = choose|t: int| 0 <= t < rows[v as int].len() && rows[v as int][t] == w;
            assert(spec_dodg_row(rows, v).contains(w));
        }
        if spec_dodg_row(rows, v).contains(w) {
            assert(rows[v as int].contains(w));
        }
    }
}

/// Validity of an oriented row table for the counting pass.
pub open spec fn dodg_wf(dodg: Seq<Seq<usize>>, degs: Seq<usize>) -> bool {
    &&& degs.len() == dodg.len()
    &&& forall|u: int| 0 <= u < dodg.len() ==> strictly_sorted(#[trigger] dodg[u])
    &&& forall|u: int, k: int|
        0 <= u < dodg.len() && 0 <= k < dodg[u].len() ==> (#[trigger] dodg[u][k]) < dodg.len()
}

proof fn lemma_count_from_nonneg(dodg: Seq<Seq<usize>>, degs: Seq<usize>, r: Seq<usize>, i: int, j: int)
    ensures
        0 <= count_from(dodg, degs, r, i, j),
    decreases r.len() - i, r.len() + 1 - j,
{
    if i < 0 || j <= i {
    } else if i >= r.len() {
    } else if j >= r.len() {
        lemma_count_from_nonneg(dodg, degs, r, i + 1, i + 2);
    } else {
        lemma_count_from_nonneg(dodg, degs, r, i, j + 1);
    }
}

proof fn lemma_block_hits_nonneg(dodg: Seq<Seq<usize>>, degs: Seq<usize>, lo: int, hi: int)
    ensures
        0 <= block_hits(dodg, degs, lo, hi),
    decreases hi - lo,
{
    if lo < hi {
        lemma_block_hits_nonneg(dodg, degs, lo, hi - 1);
        lemma_count_from_nonneg(dodg, degs, dodg[hi - 1], 0, 1);
    }
}

/// Hits over adjacent blocks add up.
pub proof fn lemma_block_hits_split(
    dodg: Seq<Seq<usize>>,
    degs: Seq<usize>,
    lo: int,
    mid: int,
    hi: int,
)
    requires
        lo <= mid <= hi,
    ensures
        block_hits(dodg, degs, lo, mid) + block_hits(dodg, degs, mid, hi) == block_hits(
            dodg,
            degs,
            lo,
            hi,
        ),
    decreases hi - mid,
{
    if mid < hi {
        lemma_block_hits_split(dodg, degs, lo, mid, hi - 1);
    }
}

/// A block's hits never exceed the whole table's.
pub proof fn lemma_block_hits_le(dodg: Seq<Seq<usize>>, degs: Seq<usize>, lo: int, hi: int)
    requires
        0 <= lo <= hi <= dodg.len(),
    ensures
        block_hits(dodg, degs, lo, hi) <= oriented_triangle_count(dodg, degs),
{
    lemma_block_hits_split(dodg, degs, 0, lo, hi);
    lemma_block_hits_split(dodg, degs, 0, hi, dodg.len() as int);
    lemma_block_hits_nonneg(dodg, degs, 0, lo);
    lemma_block_hits_nonneg(dodg, degs, hi, dodg.len() as int);
}

proof fn lemma_count_from_le(dodg: Seq<Seq<usize>>, degs: Seq<usize>, r: Seq<usize>, i: int, j: int)
    requires
        0 <= i < r.len(),
        i < j <= r.len() + 1,
    ensures
        count_from(dodg, degs, r, i, j) <= (r.len() - (if j <= r.len() {
            j
        } else {
            r.len() as int
        })) + (r.len() - i - 1) * r.len(),
    decreases r.len() - i, r.len() + 1 - j,
{
    let ln = r.len() as int;
    if j >= ln {
        if i + 1 < ln {
            lemma_count_from_le(dodg, degs, r, i + 1, i + 2);
            let m = if i + 2 <= ln {
                i + 2
            } else {
                ln
            };
            assert((ln - m) + (ln - i - 2) * ln <= 0 + (ln - i - 1) * ln) by (nonlinear_arith)
                requires
                    0 <= i,
                    i + 1 < ln,
                    m == (if i + 2 <= ln {
                        i + 2
                    } else {
                        ln
                    }),
            ;
        } else {
            assert(count_from(dodg, degs, r, i + 1, i + 2) == 0);
        }
    } else {
        lemma_count_from_le(dodg, degs, r, i, j + 1);
    }
}

proof fn lemma_row_hits_sq(dodg: Seq<Seq<usize>>, degs: Seq<usize>, u: int)
    requires
        0 <= u < dodg.len(),
    ensures
        0 <= row_hits(dodg, degs, u) <= dodg[u].len() * dodg[u].len(),
{
    let ln = dodg[u].len() as int;
    lemma_count_from_nonneg(dodg, degs, dodg[u], 0, 1);
    if ln == 0 {
        assert(count_from(dodg, degs, dodg[u], 0, 1) == 0);
    } else {
        lemma_count_from_le(dodg, degs, dodg[u], 0, 1);
        assert((ln - 1) + (ln - 1) * ln <= ln * ln) by (nonlinear_arith)
            requires
                ln >= 1,
        ;
    }
}

/// Sum of the lengths of the first `k` rows.
pub open spec fn sum_lens(rs: Seq<Seq<usize>>, k: int) -> int
    decreases k,
{
    if k <= 0 {
        0
    } else {
        sum_lens(rs, k - 1) + rs[k - 1].len()
    }
}

proof fn lemma_sum_lens_nonneg(rs: Seq<Seq<usize>>, k: int)
    ensures
        0 <= sum_lens(rs, k),
    decreases k,
{
    if k > 0 {
        lemma_sum_lens_nonneg(rs, k - 1);
    }
}

proof fn lemma_sum_lens_agree(a: Seq<Seq<usize>>, b: Seq<Seq<usize>>, k: int)
    requires
        forall|t: int| 0 <= t < k ==> (#[trigger] a[t]).len() == b[t].len(),
    ensures
        sum_lens(a, k) == sum_lens(b, k),
    decreases k,
{
    if k > 0 {
        lemma_sum_lens_agree(a, b, k - 1);
    }
}

/// `total_entries` is the sum of all row lengths.
pub proof fn lemma_total_entries_sum_lens(rs: Seq<Seq<usize>>)
    ensures
        total_entries(rs) == sum_lens(rs, rs.len() as int),
    decreases rs.len(),
{
    if rs.len() > 0 {
        lemma_total_entries_sum_lens(rs.drop_last());
        lemma_sum_lens_agree(rs.drop_last(), rs, rs.len() - 1);
    }
}

proof fn lemma_block_hits_sq(dodg: Seq<Seq<usize>>, degs: Seq<usize>, k: int)
    requires
        0 <= k <= dodg.len(),
    ensures
        block_hits(dodg, degs, 0, k) <= sum_lens(dodg, k) * sum_lens(dodg, k),
    decreases k,
{
    if k > 0 {
        lemma_block_hits_sq(dodg, degs, k - 1);
        lemma_row_hits_sq(dodg, degs, k - 1);
        let s = sum_lens(dodg, k - 1);
        let l = dodg[k - 1].len() as int;
        lemma_sum_lens_nonneg(dodg, k - 1);
        assert(s * s + l * l <= (s + l) * (s + l)) by (nonlinear_arith)
            requires
                s >= 0,
                l >= 0,
        ;
    }
}

/// The engine's count is bounded by the square of the stored entries.
pub proof fn lemma_triangles_bound(rows: Seq<Seq<usize>>)
    requires
        rows.len() <= usize::MAX,
        forall|u: int| 0 <= u < rows.len() ==> strictly_sorted(#[trigger] rows[u]),
    ensures
        0 <= spec_triangles(rows) <= total_entries(rows) * total_entries(rows),
{
    let dodg = dodg_of(rows);
    let degs = degrees_of(rows);
    let n = rows.len() as int;
    lemma_block_hits_nonneg(dodg, degs, 0, n);
    lemma_block_hits_sq(dodg, degs, n);
    assert forall|t: int| 0 <= t < n implies (#[trigger] dodg[t]).len() <= rows[t].len() by {
        lemma_dodg_row_rec_props(rows, t as usize, rows[t].len() as int);
    }
    lemma_sum_lens_le(dodg, rows, n);
    lemma_total_entries_sum_lens(rows);
    lemma_sum_lens_nonneg(dodg, n);
    let sd = sum_lens(dodg, n);
    let sr = sum_lens(rows, n);
    assert(sd * sd <= sr * sr) by (nonlinear_arith)
        requires
            0 <= sd <= sr,
    ;
}

proof fn lemma_sum_lens_le(a: Seq<Seq<usize>>, b: Seq<Seq<usize>>, k: int)
    requires
        forall|t: int| 0 <= t < k ==> (#[trigger] a[t]).len() <= b[t].len(),
    ensures
        sum_lens(a, k) <= sum_lens(b, k),
    decreases k,
{
    if k > 0 {
        lemma_sum_lens_le(a, b, k - 1);
    }
}

/// The per-vertex degree table of the graph.
fn degree_table(g: &StaticGraph) -> (r: Vec<usize>)
    requires
        g.wf(),
    ensures
        r@ == degrees_of(g.out_rows()),
{
    let n = g.nv();
    let mut degrees: Vec<usize> = Vec::new();
    for u in 0..n
        invariant
            g.wf(),
            n == g.out_rows().len(),
            degrees@.len() == u,
            forall|t: int| 0 <= t < u ==> (#[trigger] degrees@[t]) == g.out_rows()[t].len(),
    {
        degrees.push(g.out_degree(u).unwrap());
    }
    proof {
        assert(degrees@ =~= degrees_of(g.out_rows()));
    }
    degrees
}

/// The degree of `u` and its degree-oriented row, built by filtering
/// `u`'s neighbor row with on-the-fly degree probes.
fn dodg_entry(g: &StaticGraph, u: usize) -> (r: (usize, Vec<usize>))
    requires
        g.wf(),
        u < g.out_rows().len(),
    ensures
        r.0 == g.out_rows()[u as int].len(),
        r.1@ == spec_dodg_row(g.out_rows(), u),
{
    let ghost rows = g.out_rows();
    proof {
        g.lemma_wf();
    }
    let degu = g.out_degree(u).unwrap();
    let row = g.out_neighbors(u).unwrap();
    let rn = row.len();
    let mut vvec: Vec<usize> = Vec::new();
    for k in 0..rn
        invariant
            g.wf(),
            rows == g.out_rows(),
            rows_wf(rows),
            u < rows.len(),
            row@ == rows[u as int],
            rn == row@.len(),
            degu == rows[u as int].len(),
            vvec@ == dodg_row_rec(rows, u, k as int),
    {
        let wv = row[k];
        proof {
            assert(rows[u as int][k as int] == wv);
            assert(wv < rows.len());
        }
        let degv = g.out_degree(wv).unwrap();
        let keep = degv > degu || (degv == degu && wv > u);
        proof {
            assert(degrees_of(rows)[wv as int] == degv);
            assert(degrees_of(rows)[u as int] == degu);
            assert(keep == keep_order(degrees_of(rows), u, wv));
        }
        if keep {
            vvec.push(wv);
        }
    }
    (degu, vvec)
}

/// Count unordered triangles: orient every edge by the (degree, id)
/// order, then count the linked pairs inside each oriented row.
pub fn triangles(g: &StaticGraph) -> (r: usize)
    requires
        g.wf(),
        total_entries(g.out_rows()) * total_entries(g.out_rows()) <= usize::MAX,
    ensures
        r == spec_triangles(g.out_rows()),
{
    let ghost rows = g.out_rows();
    proof {
        g.lemma_wf();
    }
    let n = g.nv();
    let degrees = degree_table(g);
    let mut dodg: Vec<Vec<usize>> = Vec::new();
    for u in 0..n
        invariant
            g.wf(),
            rows == g.out_rows(),
            n == rows.len(),
            dodg@.len() == u,
            forall|t: int| 0 <= t < u ==> (#[trigger] dodg@[t])@ == spec_dodg_row(rows, t as usize),
    {
        let e = dodg_entry(g, u);
        dodg.push(e.1);
    }
    let degrees_v = degrees;
    proof {
        assert forall|t: int| 0 <= t < n implies dodg.deep_view()[t] == dodg_of(rows)[t] by {
            assert(dodg.deep_view()[t] =~= (dodg@[t])@);
        }
        assert(dodg.deep_view() =~= dodg_of(rows));
        assert forall|t: int| 0 <= t < rows.len() implies strictly_sorted(
            #[trigger] dodg_of(rows)[t],
        ) && dodg_of(rows)[t].len() <= rows[t].len() by {
            lemma_dodg_row_rec_props(rows, t as usize, rows[t].len() as int);
        }
        assert forall|t: int, k: int|
            0 <= t < rows.len() && 0 <= k < dodg_of(rows)[t].len() implies (#[trigger] dodg_of(
            rows,
        )[t][k]) < rows.len() by {
            lemma_dodg_row_rec_props(rows, t as usize, rows[t].len() as int);
            let x = dodg_of(rows)[t][k];
            assert(dodg_of(rows)[t].contains(x));
            let s = choose|s: int|
                0 <= s < rows[t].len() && rows[t][s] == x && keep_order(degrees_of(rows), t as usize, x);
        }
        assert(dodg_wf(dodg.deep_view(), degrees_v@));
        lemma_triangles_bound(rows);
    }
    count_block(&dodg, &degrees_v, 0, n)
}

/// Sum of the first `k` weights.
pub open spec fn weights_sum(ws: Seq<usize>, k: int) -> int
    decreases k,
{
    if k <= 0 {
        0
    } else {
        weights_sum(ws, k - 1) + ws[k - 1]
    }
}

/// Sum of the weights `[a, b)`.
pub open spec fn range_weight(ws: Seq<usize>, a: int, b: int) -> int {
    weights_sum(ws, b) - weights_sum(ws, a)
}

proof fn lemma_weights_sum_mono(ws: Seq<usize>, a: int, b: int)
    requires
        a <= b,
    ensures
        weights_sum(ws, a) <= weights_sum(ws, b),
    decreases b - a,
{
    if a < b {
        lemma_weights_sum_mono(ws, a, b - 1);
    }
}

/// The greedy left-to-right pass at capacity `cap`, standing at item
/// `i` with `cur` already in the open bin and `left` usable bins: true
/// when the remaining items can be taken.
pub open spec fn greedy_ok(ws: Seq<usize>, cap: int, i: int, cur: int, left: int) -> bool
    decreases ws.len() - i,
{
    if i < 0 || i >= ws.len() {
        true
    } else {
        let w = ws[i] as int;
        if cur + w > cap {
            left > 1 && greedy_ok(ws, cap, i + 1, w, left - 1)
        } else {
            greedy_ok(ws, cap, i + 1, cur + w, left)
        }
    }
}

/// Whether the greedy pass fits all weights into `p` contiguous bins of
/// capacity `cap`.
pub open spec fn feasible(ws: Seq<usize>, cap: int, p: int) -> bool {
    greedy_ok(ws, cap, 0, 0, p)
}

proof fn lemma_greedy_suffices(ws: Seq<usize>, cap: int, i: int, cur: int, left: int)
    requires
        0 <= i,
        left >= 1,
        0 <= cur,
        cur + (weights_sum(ws, ws.len() as int) - weights_sum(ws, i)) <= cap,
    ensures
        greedy_ok(ws, cap, i, cur, left),
    decreases ws.len() - i,
{
    if i < ws.len() {
        lemma_weights_sum_mono(ws, i + 1, ws.len() as int);
        lemma_greedy_suffices(ws, cap, i + 1, cur + ws[i], left);
    }
}

/// The whole sum is always a feasible capacity.
pub proof fn lemma_feasible_total(ws: Seq<usize>, p: int)
    requires
        p >= 1,
    ensures
        feasible(ws, weights_sum(ws, ws.len() as int), p),
{
    lemma_greedy_suffices(ws, weights_sum(ws, ws.len() as int), 0, 0, p);
}

/// The open bin's weight after the greedy pass has taken `i` items.
pub open spec fn greedy_cur_at(ws: Seq<usize>, cap: int, i: int) -> int
    decreases i,
{
    if i <= 0 {
        0
    } else {
        let c = greedy_cur_at(ws, cap, i - 1);
        if c + ws[i - 1] > cap {
            ws[i - 1] as int
        } else {
            c + ws[i - 1]
        }
    }
}

/// The number of bins the greedy pass has closed after taking `i` items.
pub open spec fn greedy_closes_at(ws: Seq<usize>, cap: int, i: int) -> int
    decreases i,
{
    if i <= 0 {
        0
    } else {
        greedy_closes_at(ws, cap, i - 1) + (if greedy_cur_at(ws, cap, i - 1) + ws[i - 1] > cap {
            1int
        } else {
            0int
        })
    }
}

proof fn lemma_closes_mono(ws: Seq<usize>, cap: int, a: int, b: int)
    requires
        a <= b,
    ensures
        greedy_closes_at(ws, cap, a) <= greedy_closes_at(ws, cap, b),
    decreases b - a,
{
    if a < b {
        lemma_closes_mono(ws, cap, a, b - 1);
    }
}

/// The budgeted pass succeeds exactly when the unbudgeted pass closes
/// fewer bins than the budget.
proof fn lemma_greedy_ok_closes(ws: Seq<usize>, cap: int, i: int, left: int)
    requires
        0 <= i <= ws.len(),
        left >= 1,
    ensures
        greedy_ok(ws, cap, i, greedy_cur_at(ws, cap, i), left) <==> (greedy_closes_at(
            ws,
            cap,
            ws.len() as int,
        ) - greedy_closes_at(ws, cap, i) < left),
    decreases ws.len() - i,
{
    let n = ws.len() as int;
    if i < n {
        let c = greedy_cur_at(ws, cap, i);
        let w = ws[i] as int;
        assert(greedy_cur_at(ws, cap, i + 1) == if c + w > cap {
            w
        } else {
            c + w
        });
        assert(greedy_closes_at(ws, cap, i + 1) == greedy_closes_at(ws, cap, i) + (if c + w
            > cap {
            1int
        } else {
            0int
        }));
        if c + w > cap {
            if left == 1 {
                lemma_closes_mono(ws, cap, i + 1, n);
            } else {
                lemma_greedy_ok_closes(ws, cap, i + 1, left - 1);
            }
        } else {
            lemma_greedy_ok_closes(ws, cap, i + 1, left);
        }
    }
}

/// A stretch the open bin can still absorb closes no bin.
proof fn lemma_greedy_absorbs(ws: Seq<usize>, cap: int, a: int, b: int)
    requires
        0 <= a <= b <= ws.len(),
        greedy_cur_at(ws, cap, a) + range_weight(ws, a, b) <= cap,
        0 <= greedy_cur_at(ws, cap, a),
    ensures
        greedy_closes_at(ws, cap, b) == greedy_closes_at(ws, cap, a),
        greedy_cur_at(ws, cap, b) == greedy_cur_at(ws, cap, a) + range_weight(ws, a, b),
    decreases b - a,
{
    if a < b {
        lemma_weights_sum_mono(ws, b - 1, b);
        lemma_greedy_absorbs(ws, cap, a, b - 1);
    }
}

/// A stretch whose own weight fits one bin closes at most one bin, and
/// the open bin then holds only a suffix of the stretch.
proof fn lemma_greedy_one_close(ws: Seq<usize>, cap: int, a: int, b: int)
    requires
        0 <= a <= b <= ws.len(),
        range_weight(ws, a, b) <= cap,
    ensures
        greedy_closes_at(ws, cap, b) <= greedy_closes_at(ws, cap, a) + 1,
        greedy_closes_at(ws, cap, b) == greedy_closes_at(ws, cap, a) + 1 ==> greedy_cur_at(
            ws,
            cap,
            b,
        ) <= range_weight(ws, a, b),
    decreases b - a,
{
    if a < b {
        lemma_weights_sum_mono(ws, b - 1, b);
        lemma_weights_sum_mono(ws, a, b - 1);
        lemma_greedy_one_close(ws, cap, a, b - 1);
        let c = greedy_cur_at(ws, cap, b - 1);
        let w = ws[b - 1] as int;
        if c + w > cap {
            if greedy_closes_at(ws, cap, b - 1) == greedy_closes_at(ws, cap, a) + 1 {
                assert(c <= range_weight(ws, a, b - 1));
                assert(false);
            }
        }
    }
}

/// Law (greedy dominance): whenever the weights can be split at all
/// into at most `p` contiguous ranges each weighing at most `cap`, the
/// greedy pass at `cap` succeeds too.  So a capacity the greedy pass
/// refuses is beaten by no contiguous split, and the bound the
/// partitioner settles on is the least achievable maximum range weight
/// over its searched interval.
pub proof fn lemma_greedy_dominates(ws: Seq<usize>, cap: int, p: int, parts: Seq<(usize, usize)>)
    requires
        1 <= parts.len() <= p,
        parts[0].0 == 0,
        parts[parts.len() - 1].1 == ws.len(),
        forall|t: int| 0 <= t < parts.len() ==> (#[trigger] parts[t]).0 <= parts[t].1 <= ws.len(),
        forall|t: int| 0 <= t < parts.len() - 1 ==> (#[trigger] parts[t]).1 == parts[t + 1].0,
        forall|t: int|
            0 <= t < parts.len() ==> range_weight(ws, (#[trigger] parts[t]).0 as int, parts[t].1 as int)
                <= cap,
    ensures
        feasible(ws, cap, p),
{
    lemma_parts_closes(ws, cap, parts, parts.len() as int);
    lemma_greedy_ok_closes(ws, cap, 0, p);
}

proof fn lemma_parts_closes(ws: Seq<usize>, cap: int, parts: Seq<(usize, usize)>, j: int)
    requires
        1 <= j <= parts.len(),
        parts[0].0 == 0,
        parts[parts.len() - 1].1 == ws.len(),
        forall|t: int| 0 <= t < parts.len() ==> (#[trigger] parts[t]).0 <= parts[t].1 <= ws.len(),
        forall|t: int| 0 <= t < parts.len() - 1 ==> (#[trigger] parts[t]).1 == parts[t + 1].0,
        forall|t: int|
            0 <= t < parts.len() ==> range_weight(ws, (#[trigger] parts[t]).0 as int, parts[t].1 as int)
                <= cap,
    ensures
        greedy_closes_at(ws, cap, parts[j - 1].1 as int) <= j - 1,
    decreases j,
{
    if j == 1 {
        assert(parts[0].0 <= parts[0].1);
        lemma_greedy_absorbs(ws, cap, 0, parts[0].1 as int);
    } else {
        lemma_parts_closes(ws, cap, parts, j - 1);
        assert(parts[j - 2].1 == parts[j - 1].0);
        assert(parts[j - 1].0 <= parts[j - 1].1);
        lemma_greedy_one_close(ws, cap, parts[j - 1].0 as int, parts[j - 1].1 as int);
    }
}

proof fn lemma_parts_weight_bound(ws: Seq<usize>, parts: Seq<(usize, usize)>, cap: int, j: int)
    requires
        1 <= j <= parts.len(),
        parts[0].0 == 0,
        forall|t: int| 0 <= t < parts.len() ==> (#[trigger] parts[t]).0 <= parts[t].1 <= ws.len(),
        forall|t: int| 0 <= t < parts.len() - 1 ==> (#[trigger] parts[t]).1 == parts[t + 1].0,
        forall|t: int|
            0 <= t < parts.len() ==> range_weight(ws, (#[trigger] parts[t]).0 as int, parts[t].1 as int)
                <= cap,
    ensures
        range_weight(ws, parts[0].0 as int, parts[j - 1].1 as int) <= j * cap,
    decreases j,
{
    if j == 1 {
        assert(parts[0].0 <= parts[0].1);
        assert(1 * cap == cap) by (nonlinear_arith);
    } else {
        lemma_parts_weight_bound(ws, parts, cap, j - 1);
        assert(parts[j - 2].1 == parts[j - 1].0);
        assert((j - 1) * cap + cap == j * cap) by (nonlinear_arith);
    }
}

/// Law (minimality): under the partitioner's certificate for `best`,
/// every split of the weights into at most `p` contiguous ranges has a
/// range weighing at least `best`.  Together with the certificate
/// itself, `best` is the least achievable maximum range weight, except
/// that a single item heavier than `best` keeps a bin of its own.
pub proof fn lemma_bound_minimal(
    ws: Seq<usize>,
    p: int,
    rparts: Seq<(usize, usize)>,
    best: int,
    parts: Seq<(usize, usize)>,
)
    requires
        p >= 1,
        weights_sum(ws, ws.len() as int) >= 1,
        partition_bound_ok(ws, p, rparts, best),
        1 <= parts.len() <= p,
        parts[0].0 == 0,
        parts[parts.len() - 1].1 == ws.len(),
        forall|t: int| 0 <= t < parts.len() ==> (#[trigger] parts[t]).0 <= parts[t].1 <= ws.len(),
        forall|t: int| 0 <= t < parts.len() - 1 ==> (#[trigger] parts[t]).1 == parts[t + 1].0,
    ensures
        exists|t: int|
            0 <= t < parts.len() && range_weight(
                ws,
                (#[trigger] parts[t]).0 as int,
                parts[t].1 as int,
            ) >= best,
{
    let total = weights_sum(ws, ws.len() as int);
    let floor = (total - 1) / p;
    let cap = best - 1;
    if forall|t: int|
        0 <= t < parts.len() ==> range_weight(
            ws,
            (#[trigger] parts[t]).0 as int,
            parts[t].1 as int,
        ) <= cap {
        if best == floor + 1 {
            // at most p ranges each weighing no more than the floor
            // cannot carry a positive total
            let m = parts.len() as int;
            lemma_parts_weight_bound(ws, parts, cap, m);
            assert(m * cap <= p * cap) by (nonlinear_arith)
                requires
                    1 <= m <= p,
                    cap >= 0,
            ;
            assert(p * ((total - 1) / p) <= total - 1) by (nonlinear_arith)
                requires
                    p >= 1,
                    total >= 1,
            ;
        } else {
            lemma_greedy_dominates(ws, cap, p, parts);
        }
        assert(false);
    } else {
        let t = choose|t: int|
            0 <= t < parts.len() && !(range_weight(ws, (#[trigger] parts[t]).0 as int, parts[t].1 as int)
                <= cap);
        assert(range_weight(ws, parts[t].0 as int, parts[t].1 as int) >= best);
    }
}

/// The certificate the partitioner's ranges are returned under: `best`
/// is greedy-feasible, lies in the searched interval, is the least such
/// capacity unless the search floor itself sufficed, and every returned
/// range either fits in `best` or is a single oversized item.
pub open spec fn partition_bound_ok(
    ws: Seq<usize>,
    p: int,
    parts: Seq<(usize, usize)>,
    best: int,
) -> bool {
    let total = weights_sum(ws, ws.len() as int);
    let floor = (total - 1) / p;
    &&& floor < best <= total
    &&& feasible(ws, best, p)
    &&& (best == floor + 1 || !feasible(ws, best - 1, p))
    &&& forall|t: int|
        0 <= t < parts.len() ==> range_weight(ws, (#[trigger] parts[t]).0 as int, parts[t].1 as int)
            <= best || parts[t].1 - parts[t].0 <= 1
}

/// Total weight.
fn sum_weights(weights: &Vec<usize>) -> (r: usize)
    requires
        weights_sum(weights@, weights@.len() as int) <= usize::MAX,
    ensures
        r == weights_sum(weights@, weights@.len() as int),
{
    let n = weights.len();
    let mut sum: usize = 0;
    for k in 0..n
        invariant
            n == weights@.len(),
            weights_sum(weights@, weights@.len() as int) <= usize::MAX,
            sum == weights_sum(weights@, k as int),
    {
        proof {
            lemma_weights_sum_mono(weights@, k + 1, n as int);
        }
        sum = sum + weights[k];
    }
    sum
}

/// One greedy feasibility test at capacity `cap`.
fn greedy_fits(weights: &Vec<usize>, cap: usize, p: usize) -> (r: bool)
    requires
        p >= 1,
        weights_sum(weights@, weights@.len() as int) <= usize::MAX,
    ensures
        r == feasible(weights@, cap as int, p as int),
{
    let n = weights.len();
    let mut sum_part: usize = 0;
    let mut remain: usize = p;
    let mut k: usize = 0;
    while k < n
        invariant
            n == weights@.len(),
            remain >= 1,
            0 <= k <= n,
            sum_part <= weights_sum(weights@, k as int),
            weights_sum(weights@, weights@.len() as int) <= usize::MAX,
            feasible(weights@, cap as int, p as int) == greedy_ok(
                weights@,
                cap as int,
                k as int,
                sum_part as int,
                remain as int,
            ),
        decreases n - k,
    {
        proof {
            lemma_weights_sum_mono(weights@, k + 1, n as int);
        }
        let w = weights[k];
        let ns = sum_part + w;
        if ns > cap {
            if remain == 1 {
                return false;
            }
            sum_part = w;
            remain = remain - 1;
        } else {
            sum_part = ns;
        }
        k = k + 1;
    }
    true
}

/// Replay the greedy pass at the final capacity and materialize the
/// contiguous ranges, an oversized single item getting a bin of its own.
fn greedy_cut(weights: &Vec<usize>, cap: usize, Ghost(p): Ghost<int>) -> (r: Vec<(usize, usize)>)
    requires
        p >= 1,
        weights_sum(weights@, weights@.len() as int) <= usize::MAX,
        feasible(weights@, cap as int, p),
    ensures
        1 <= r@.len() <= p,
        r@[0].0 == 0,
        r@[r@.len() - 1].1 == weights@.len(),
        forall|t: int| 0 <= t < r@.len() ==> (#[trigger] r@[t]).0 <= r@[t].1,
        forall|t: int| 0 <= t < r@.len() - 1 ==> (#[trigger] r@[t]).1 == r@[t + 1].0,
        forall|t: int|
            0 <= t < r@.len() ==> range_weight(weights@, (#[trigger] r@[t]).0 as int, r@[t].1 as int)
                <= cap || r@[t].1 - r@[t].0 <= 1,
{
    let n = weights.len();
    let mut parts: Vec<(usize, usize)> = Vec::new();
    let mut sum_part: usize = 0;
    let mut left: usize = 0;
    let mut k: usize = 0;
    while k < n
        invariant
            n == weights@.len(),
            0 <= left <= k <= n,
            weights_sum(weights@, weights@.len() as int) <= usize::MAX,
            sum_part == range_weight(weights@, left as int, k as int),
            sum_part <= weights_sum(weights@, k as int),
            sum_part <= cap || k - left == 1,
            parts@.len() == 0 ==> left == 0,
            parts@.len() >= 1 ==> parts@[0].0 == 0 && parts@[parts@.len() - 1].1 == left,
            forall|t: int| 0 <= t < parts@.len() ==> (#[trigger] parts@[t]).0 <= parts@[t].1,
            forall|t: int|
                0 <= t < parts@.len() - 1 ==> (#[trigger] parts@[t]).1 == parts@[t + 1].0,
            forall|t: int|
                0 <= t < parts@.len() ==> range_weight(
                    weights@,
                    (#[trigger] parts@[t]).0 as int,
                    parts@[t].1 as int,
                ) <= cap || parts@[t].1 - parts@[t].0 <= 1,
            p - parts@.len() >= 1,
            greedy_ok(weights@, cap as int, k as int, sum_part as int, p - parts@.len()),
        decreases n - k,
    {
        proof {
            lemma_weights_sum_mono(weights@, 0, left as int);
            lemma_weights_sum_mono(weights@, k + 1, n as int);
        }
        let w = weights[k];
        let ns = sum_part + w;
        if ns > cap {
            parts.push((left, k));
            sum_part = w;
            left = k;
        } else {
            sum_part = ns;
        }
        k = k + 1;
    }
    parts.push((left, n));
    proof {
        lemma_weights_sum_mono(weights@, 0, left as int);
    }
    parts
}

/// Split the two-or-more-item range at position `t` into its first item
/// and the rest, keeping the partition's shape and weight bounds.
#[verifier::rlimit(100)]
fn split_range(
    r: &mut Vec<(usize, usize)>,
    t: usize,
    n_items: usize,
    Ghost(ws): Ghost<Seq<usize>>,
    Ghost(best): Ghost<int>,
)
    requires
        n_items == ws.len(),
        1 <= old(r)@.len(),
        t < old(r)@.len(),
        old(r)@[t as int].1 - old(r)@[t as int].0 >= 2,
        old(r)@[0].0 == 0,
        old(r)@[old(r)@.len() - 1].1 == n_items,
        forall|s: int|
            0 <= s < old(r)@.len() ==> (#[trigger] old(r)@[s]).0 <= old(r)@[s].1 <= n_items,
        forall|s: int|
            0 <= s < old(r)@.len() - 1 ==> (#[trigger] old(r)@[s]).1 == old(r)@[s + 1].0,
        forall|s: int|
            0 <= s < old(r)@.len() ==> range_weight(
                ws,
                (#[trigger] old(r)@[s]).0 as int,
                old(r)@[s].1 as int,
            ) <= best || old(r)@[s].1 - old(r)@[s].0 <= 1,
    ensures
        final(r)@.len() == old(r)@.len() + 1,
        final(r)@[0].0 == 0,
        final(r)@[final(r)@.len() - 1].1 == n_items,
        forall|s: int|
            0 <= s < final(r)@.len() ==> (#[trigger] final(r)@[s]).0 <= final(r)@[s].1 <= n_items,
        forall|s: int|
            0 <= s < final(r)@.len() - 1 ==> (#[trigger] final(r)@[s]).1 == final(r)@[s + 1].0,
        forall|s: int|
            0 <= s < final(r)@.len() ==> range_weight(
                ws,
                (#[trigger] final(r)@[s]).0 as int,
                final(r)@[s].1 as int,
            ) <= best || final(r)@[s].1 - final(r)@[s].0 <= 1,
{
    let ghost rb = r@;
    let rl = r.len();
    assert(t < rl);
    let (a, b) = r[t];
    r[t] = (a, a + 1);
    r.insert(t + 1, (a + 1, b));
    proof {
        let mid = rb.update(t as int, (a, (a + 1) as usize));
        assert(r@ == mid.insert(t + 1, ((a + 1) as usize, b)));
        mid.insert_ensures(t + 1, ((a + 1) as usize, b));
        lemma_weights_sum_mono(ws, a as int, a + 1);
        lemma_weights_sum_mono(ws, a + 1, b as int);
        assert(range_weight(ws, a as int, b as int) <= best);
        assert forall|s: int|
            0 <= s < r@.len() implies (#[trigger] r@[s]).0 <= r@[s].1 <= n_items && (range_weight(
            ws,
            r@[s].0 as int,
            r@[s].1 as int,
        ) <= best || r@[s].1 - r@[s].0 <= 1) by {
            if s < t {
                assert(r@[s] == rb[s]);
            } else if s == t {
                assert(r@[s] == (a, (a + 1) as usize));
            } else if s == t + 1 {
                assert(r@[s] == ((a + 1) as usize, b));
            } else {
                assert(r@[s] == rb[s - 1]);
            }
        }
        assert forall|s: int| 0 <= s < r@.len() - 1 implies (#[trigger] r@[s]).1 == r@[s + 1].0 by {
            if s < t - 1 {
                assert(r@[s] == rb[s] && r@[s + 1] == rb[s + 1]);
            } else if s == t - 1 {
                assert(r@[s] == rb[s] && r@[s + 1] == (a, (a + 1) as usize));
            } else if s == t {
                assert(r@[s] == (a, (a + 1) as usize) && r@[s + 1] == ((a + 1) as usize, b));
            } else if s == t + 1 {
                assert(r@[s] == ((a + 1) as usize, b) && r@[s + 1] == rb[s]);
            } else {
                assert(r@[s] == rb[s - 1] && r@[s + 1] == rb[s]);
            }
        }
        assert(r@[0].0 == 0);
        assert(r@[r@.len() - 1].1 == n_items);
    }
}

/// Split the weights, kept in order, into exactly `n_partitions`
/// contiguous ranges minimizing the maximum range weight: a binary
/// search finds the least greedy-feasible bound over
/// `[(total - 1) / n_partitions, total]`, and one more greedy pass
/// materializes the ranges at that bound.  The ranges are non-empty
/// where possible: when fewer bins suffice, trailing empty ranges pad
/// the count.  By `lemma_bound_minimal` no contiguous split beats the
/// bound; a single weight above it is given a bin of its own.
#[verifier::rlimit(100)]
pub fn optimal_contiguous_partition(weights: &Vec<usize>, n_partitions: usize) -> (r: Vec<
    (usize, usize),
>)
    requires
        n_partitions >= 1,
        1 <= weights_sum(weights@, weights@.len() as int) <= usize::MAX,
    ensures
        r@.len() == n_partitions,
        r@[0].0 == 0,
        r@[r@.len() - 1].1 == weights@.len(),
        forall|t: int| 0 <= t < r@.len() ==> (#[trigger] r@[t]).0 <= r@[t].1,
        forall|t: int| 0 <= t < r@.len() - 1 ==> (#[trigger] r@[t]).1 == r@[t + 1].0,
        exists|best: int|
            #[trigger] partition_bound_ok(weights@, n_partitions as int, r@, best),
{
    let ghost ws = weights@;
    let total = sum_weights(weights);
    let ghost floor = (total as int - 1) / (n_partitions as int);
    let mut up: usize = total;
    let mut low: usize = (total - 1) / n_partitions;
    proof {
        lemma_feasible_total(ws, n_partitions as int);
    }
    while up > low + 1
        invariant
            ws == weights@,
            n_partitions >= 1,
            total == weights_sum(ws, ws.len() as int),
            1 <= total <= usize::MAX,
            floor == (total as int - 1) / (n_partitions as int),
            floor <= low < up <= total,
            feasible(ws, up as int, n_partitions as int),
            low == floor || !feasible(ws, low as int, n_partitions as int),
        decreases up - low,
    {
        let mid = low + (up - low) / 2;
        if greedy_fits(weights, mid, n_partitions) {
            up = mid;
        } else {
            low = mid;
        }
    }
    let best = up;
    let mut r = greedy_cut(weights, best, Ghost(n_partitions as int));
    let n_items = weights.len();
    proof {
        assert forall|s: int|
            0 <= s < r@.len() implies (#[trigger] r@[s]).0 <= r@[s].1 <= n_items by {
            lemma_parts_mono(r@, s);
        }
    }
    // bring the count up to exactly the requested number of ranges:
    // first split ranges of two or more items, then — only when fewer
    // items than ranges remain — pad with empty trailing ranges
    let mut t: usize = 0;
    #[verifier::rlimit(100)]
    while r.len() < n_partitions && t < r.len()
        invariant
            ws == weights@,
            n_items == ws.len(),
            1 <= best,
            1 <= r@.len() <= n_partitions,
            0 <= t <= r@.len(),
            r@[0].0 == 0,
            r@[r@.len() - 1].1 == n_items,
            forall|s: int| 0 <= s < r@.len() ==> (#[trigger] r@[s]).0 <= r@[s].1 <= n_items,
            forall|s: int| 0 <= s < r@.len() - 1 ==> (#[trigger] r@[s]).1 == r@[s + 1].0,
            forall|s: int|
                0 <= s < r@.len() ==> range_weight(ws, (#[trigger] r@[s]).0 as int, r@[s].1 as int)
                    <= best || r@[s].1 - r@[s].0 <= 1,
        decreases n_partitions - r@.len(), r@.len() - t,
    {
        let (a, b) = r[t];
        if b - a >= 2 {
            split_range(&mut r, t, n_items, Ghost(ws), Ghost(best as int));
        } else {
            t = t + 1;
        }
    }
    while r.len() < n_partitions
        invariant
            ws == weights@,
            n_items == ws.len(),
            1 <= best,
            1 <= r@.len() <= n_partitions,
            r@[0].0 == 0,
            r@[r@.len() - 1].1 == n_items,
            forall|s: int| 0 <= s < r@.len() ==> (#[trigger] r@[s]).0 <= r@[s].1 <= n_items,
            forall|s: int| 0 <= s < r@.len() - 1 ==> (#[trigger] r@[s]).1 == r@[s + 1].0,
            forall|s: int|
                0 <= s < r@.len() ==> range_weight(ws, (#[trigger] r@[s]).0 as int, r@[s].1 as int)
                    <= best || r@[s].1 - r@[s].0 <= 1,
        decreases n_partitions - r@.len(),
    {
        let ghost rb = r@;
        r.push((n_items, n_items));
        proof {
            assert(r@ == rb.push((n_items, n_items)));
            assert(range_weight(ws, n_items as int, n_items as int) == 0);
        }
    }
    proof {
        assert(partition_bound_ok(ws, n_partitions as int, r@, best as int));
    }
    r
}

/// Count the linked pairs inside the oriented rows of vertices
/// `[lo, hi)`, probing by binary search on the cheaper side.
fn count_block(dodg: &Vec<Vec<usize>>, degrees: &Vec<usize>, lo: usize, hi: usize) -> (r: usize)
    requires
        dodg_wf(dodg.deep_view(), degrees@),
        lo <= hi <= dodg@.len(),
        block_hits(dodg.deep_view(), degrees@, lo as int, hi as int) <= usize::MAX,
    ensures
        r == block_hits(dodg.deep_view(), degrees@, lo as int, hi as int),
{
    let ghost dv = dodg.deep_view();
    let ghost dg = degrees@;
    proof {
        assert forall|u: int| 0 <= u < dodg@.len() implies dv[u] =~= dodg@[u]@ by {}
    }
    let mut ntri: usize = 0;
    let mut u = lo;
    while u < hi
        invariant
            dodg_wf(dv, dg),
            dv == dodg.deep_view(),
            dg == degrees@,
            dv.len() == dodg@.len(),
            forall|t: int| 0 <= t < dodg@.len() ==> dv[t] == (#[trigger] dodg@[t])@,
            lo <= u <= hi <= dv.len(),
            block_hits(dv, dg, lo as int, hi as int) <= usize::MAX,
            ntri == block_hits(dv, dg, lo as int, u as int),
        decreases hi - u,
    {
        let ulen = dodg[u].len();
        let mut i: usize = 0;
        proof {
            lemma_block_hits_split(dv, dg, lo as int, u as int, u + 1);
        }
        while i < ulen
            invariant
                dodg_wf(dv, dg),
                dv == dodg.deep_view(),
                dg == degrees@,
                dv.len() == dodg@.len(),
                forall|t: int| 0 <= t < dodg@.len() ==> dv[t] == (#[trigger] dodg@[t])@,
                lo <= u < hi <= dv.len(),
                ulen == dv[u as int].len(),
                0 <= i <= ulen,
                block_hits(dv, dg, lo as int, hi as int) <= usize::MAX,
                block_hits(dv, dg, lo as int, u + 1) == block_hits(dv, dg, lo as int, u as int)
                    + row_hits(dv, dg, u as int),
                ntri + count_from(dv, dg, dv[u as int], i as int, i + 1) == block_hits(
                    dv,
                    dg,
                    lo as int,
                    u + 1,
                ),
            decreases ulen - i,
        {
            let v = dodg[u][i];
            let mut j = i + 1;
            while j < ulen
                invariant
                    dodg_wf(dv, dg),
                    dv == dodg.deep_view(),
                    dg == degrees@,
                    dv.len() == dodg@.len(),
                    forall|t: int| 0 <= t < dodg@.len() ==> dv[t] == (#[trigger] dodg@[t])@,
                    lo <= u < hi <= dv.len(),
                    ulen == dv[u as int].len(),
                    0 <= i < ulen,
                    i < j <= ulen,
                    v == dv[u as int][i as int],
                    block_hits(dv, dg, lo as int, hi as int) <= usize::MAX,
                    block_hits(dv, dg, lo as int, u + 1) == block_hits(dv, dg, lo as int, u as int)
                        + row_hits(dv, dg, u as int),
                    ntri + count_from(dv, dg, dv[u as int], i as int, j as int) == block_hits(
                        dv,
                        dg,
                        lo as int,
                        u + 1,
                    ),
                decreases ulen - j,
            {
                let w = dodg[u][j];
                proof {
                    assert(dv[u as int][j as int] == w);
                    assert(v < dv.len());
                    assert(w < dv.len());
                }
                let w_to_v = degrees[v] > degrees[w] || (degrees[v] == degrees[w] && v > w);
                let hit = if w_to_v {
                    slice_contains_sorted(dodg[w].as_slice(), v)
                } else {
                    slice_contains_sorted(dodg[v].as_slice(), w)
                };
                proof {
                    assert(w_to_v == keep_order(dg, w, v));
                    assert(hit == pair_hit(dv, dg, v, w));
                    assert(count_from(dv, dg, dv[u as int], i as int, j as int) == (if pair_hit(
                        dv,
                        dg,
                        v,
                        w,
                    ) {
                        1int
                    } else {
                        0int
                    }) + count_from(dv, dg, dv[u as int], i as int, j + 1));
                    lemma_count_from_nonneg(dv, dg, dv[u as int], i as int, j + 1);
                    lemma_block_hits_le(dv, dg, lo as int, u + 1);
                    lemma_block_hits_le(dv, dg, lo as int, hi as int);
                    lemma_block_hits_split(dv, dg, lo as int, u + 1, hi as int);
                    lemma_block_hits_nonneg(dv, dg, u + 1, hi as int);
                }
                if hit {
                    ntri = ntri + 1;
                }
                j = j + 1;
            }
            i = i + 1;
            proof {
                assert(count_from(dv, dg, dv[u as int], i - 1, ulen as int) == count_from(
                    dv,
                    dg,
                    dv[u as int],
                    i as int,
                    i + 1,
                ));
            }
        }
        u = u + 1;
    }
    ntri
}

/// Count the linked pairs inside the oriented rows `[lo, hi)` of a
/// row-compressed oriented structure.
fn count_block_rows(dodg: &GraphMatrix, degrees: &Vec<usize>, lo: usize, hi: usize) -> (r: usize)
    requires
        dodg.wf(),
        dodg_wf(dodg@, degrees@),
        lo <= hi <= dodg@.len(),
        block_hits(dodg@, degrees@, lo as int, hi as int) <= usize::MAX,
    ensures
        r == block_hits(dodg@, degrees@, lo as int, hi as int),
{
    let ghost dv = dodg@;
    let ghost dg = degrees@;
    let mut ntri: usize = 0;
    let mut u = lo;
    while u < hi
        invariant
            dodg.wf(),
            dodg_wf(dv, dg),
            dv == dodg@,
            dg == degrees@,
            lo <= u <= hi <= dv.len(),
            block_hits(dv, dg, lo as int, hi as int) <= usize::MAX,
            ntri == block_hits(dv, dg, lo as int, u as int),
        decreases hi - u,
    {
        let row_u = dodg.row(u);
        let ulen = row_u.len();
        let mut i: usize = 0;
        proof {
            lemma_block_hits_split(dv, dg, lo as int, u as int, u + 1);
        }
        while i < ulen
            invariant
                dodg.wf(),
                dodg_wf(dv, dg),
                dv == dodg@,
                dg == degrees@,
                lo <= u < hi <= dv.len(),
                row_u@ == dv[u as int],
                ulen == dv[u as int].len(),
                0 <= i <= ulen,
                block_hits(dv, dg, lo as int, hi as int) <= usize::MAX,
                block_hits(dv, dg, lo as int, u + 1) == block_hits(dv, dg, lo as int, u as int)
                    + row_hits(dv, dg, u as int),
                ntri + count_from(dv, dg, dv[u as int], i as int, i + 1) == block_hits(
                    dv,
                    dg,
                    lo as int,
                    u + 1,
                ),
            decreases ulen - i,
        {
            let v = row_u[i];
            let mut j = i + 1;
            while j < ulen
                invariant
                    dodg.wf(),
                    dodg_wf(dv, dg),
                    dv == dodg@,
                    dg == degrees@,
                    lo <= u < hi <= dv.len(),
                    row_u@ == dv[u as int],
                    ulen == dv[u as int].len(),
                    0 <= i < ulen,
                    i < j <= ulen,
                    v == dv[u as int][i as int],
                    block_hits(dv, dg, lo as int, hi as int) <= usize::MAX,
                    block_hits(dv, dg, lo as int, u + 1) == block_hits(dv, dg, lo as int, u as int)
                        + row_hits(dv, dg, u as int),
                    ntri + count_from(dv, dg, dv[u as int], i as int, j as int) == block_hits(
                        dv,
                        dg,
                        lo as int,
                        u + 1,
                    ),
                decreases ulen - j,
            {
                let w = row_u[j];
                proof {
                    assert(dv[u as int][j as int] == w);
                    assert(v < dv.len());
                    assert(w < dv.len());
                }
                let w_to_v = degrees[v] > degrees[w] || (degrees[v] == degrees[w] && v > w);
                let hit = if w_to_v {
                    slice_contains_sorted(dodg.row(w), v)
                } else {
                    slice_contains_sorted(dodg.row(v), w)
                };
                proof {
                    assert(w_to_v == keep_order(dg, w, v));
                    assert(hit == pair_hit(dv, dg, v, w));
                    assert(count_from(dv, dg, dv[u as int], i as int, j as int) == (if pair_hit(
                        dv,
                        dg,
                        v,
                        w,
                    ) {
                        1int
                    } else {
                        0int
                    }) + count_from(dv, dg, dv[u as int], i as int, j + 1));
                    lemma_count_from_nonneg(dv, dg, dv[u as int], i as int, j + 1);
                    lemma_block_hits_le(dv, dg, lo as int, u + 1);
                    lemma_block_hits_le(dv, dg, lo as int, hi as int);
                    lemma_block_hits_split(dv, dg, lo as int, u + 1, hi as int);
                    lemma_block_hits_nonneg(dv, dg, u + 1, hi as int);
                }
                if hit {
                    ntri = ntri + 1;
                }
                j = j + 1;
            }
            i = i + 1;
            proof {
                assert(count_from(dv, dg, dv[u as int], i - 1, ulen as int) == count_from(
                    dv,
                    dg,
                    dv[u as int],
                    i as int,
                    i + 1,
                ));
            }
        }
        u = u + 1;
    }
    ntri
}

/// Sum of the hits of the first `k` listed blocks.
pub open spec fn blocks_total(
    dodg: Seq<Seq<usize>>,
    degs: Seq<usize>,
    parts: Seq<(usize, usize)>,
    k: int,
) -> int
    decreases k,
{
    if k <= 0 {
        0
    } else {
        blocks_total(dodg, degs, parts, k - 1) + block_hits(
            dodg,
            degs,
            parts[k - 1].0 as int,
            parts[k - 1].1 as int,
        )
    }
}

proof fn lemma_parts_mono(parts: Seq<(usize, usize)>, t: int)
    requires
        0 <= t < parts.len(),
        forall|s: int| 0 <= s < parts.len() ==> (#[trigger] parts[s]).0 <= parts[s].1,
        forall|s: int| 0 <= s < parts.len() - 1 ==> (#[trigger] parts[s]).1 == parts[s + 1].0,
    ensures
        parts[t].1 <= parts[parts.len() - 1].1,
    decreases parts.len() - t,
{
    if t < parts.len() - 1 {
        lemma_parts_mono(parts, t + 1);
    }
}

/// Adjacent listed blocks tile one contiguous block.
proof fn lemma_blocks_total_tile(
    dodg: Seq<Seq<usize>>,
    degs: Seq<usize>,
    parts: Seq<(usize, usize)>,
    k: int,
)
    requires
        1 <= k <= parts.len(),
        forall|s: int| 0 <= s < parts.len() ==> (#[trigger] parts[s]).0 <= parts[s].1,
        forall|s: int| 0 <= s < parts.len() - 1 ==> (#[trigger] parts[s]).1 == parts[s + 1].0,
    ensures
        blocks_total(dodg, degs, parts, k) == block_hits(
            dodg,
            degs,
            parts[0].0 as int,
            parts[k - 1].1 as int,
        ),
        parts[0].0 <= parts[k - 1].1,
    decreases k,
{
    if k > 1 {
        lemma_blocks_total_tile(dodg, degs, parts, k - 1);
        assert(parts[k - 2].1 == parts[k - 1].0);
        assert(parts[k - 1].0 <= parts[k - 1].1);
        lemma_block_hits_split(
            dodg,
            degs,
            parts[0].0 as int,
            parts[k - 2].1 as int,
            parts[k - 1].1 as int,
        );
        assert(blocks_total(dodg, degs, parts, k) == blocks_total(dodg, degs, parts, k - 1)
            + block_hits(dodg, degs, parts[k - 1].0 as int, parts[k - 1].1 as int));
        assert(block_hits(dodg, degs, parts[0].0 as int, parts[k - 2].1 as int) + block_hits(
            dodg,
            degs,
            parts[k - 2].1 as int,
            parts[k - 1].1 as int,
        ) == block_hits(dodg, degs, parts[0].0 as int, parts[k - 1].1 as int));
    } else {
        assert(parts[0].0 <= parts[0].1);
        assert(blocks_total(dodg, degs, parts, 0) == 0);
        assert(blocks_total(dodg, degs, parts, 1) == block_hits(
            dodg,
            degs,
            parts[0].0 as int,
            parts[0].1 as int,
        ));
    }
}

proof fn lemma_sum_lens_mono(rs: Seq<Seq<usize>>, a: int, b: int)
    requires
        a <= b,
    ensures
        sum_lens(rs, a) <= sum_lens(rs, b),
    decreases b - a,
{
    if a < b {
        lemma_sum_lens_mono(rs, a, b - 1);
    }
}

/// No single row is longer than the total entry count.
proof fn lemma_row_le_total(rows: Seq<Seq<usize>>, u: int)
    requires
        0 <= u < rows.len(),
    ensures
        rows[u].len() <= total_entries(rows),
{
    lemma_total_entries_sum_lens(rows);
    lemma_sum_lens_mono(rows, u + 1, rows.len() as int);
    lemma_sum_lens_nonneg(rows, u);
}

proof fn lemma_sq_weights_bound(dodg: Seq<Seq<usize>>, ws: Seq<usize>, k: int)
    requires
        0 <= k <= dodg.len(),
        forall|t: int|
            0 <= t < k ==> (#[trigger] ws[t]) == dodg[t].len() * dodg[t].len(),
    ensures
        weights_sum(ws, k) <= sum_lens(dodg, k) * sum_lens(dodg, k),
    decreases k,
{
    if k > 0 {
        lemma_sq_weights_bound(dodg, ws, k - 1);
        let s = sum_lens(dodg, k - 1);
        let l = dodg[k - 1].len() as int;
        lemma_sum_lens_nonneg(dodg, k - 1);
        assert(s * s + l * l <= (s + l) * (s + l)) by (nonlinear_arith)
            requires
                s >= 0,
                l >= 0,
        ;
    }
}

proof fn lemma_weights_zero(ws: Seq<usize>, k: int)
    requires
        0 <= k,
        weights_sum(ws, k) == 0,
    ensures
        forall|t: int| 0 <= t < k ==> (#[trigger] ws[t]) == 0,
    decreases k,
{
    if k > 0 {
        lemma_weights_sum_mono(ws, 0, k - 1);
        lemma_weights_zero(ws, k - 1);
    }
}

proof fn lemma_block_hits_empty(dodg: Seq<Seq<usize>>, degs: Seq<usize>, k: int)
    requires
        0 <= k <= dodg.len(),
        forall|t: int| 0 <= t < k ==> (#[trigger] dodg[t]).len() == 0,
    ensures
        block_hits(dodg, degs, 0, k) == 0,
    decreases k,
{
    if k > 0 {
        lemma_block_hits_empty(dodg, degs, k - 1);
        assert(count_from(dodg, degs, dodg[k - 1], 0, 1) == 0);
    }
}

/// Relies on rayon's `into_par_iter` over `0..n` with `map` and
/// `collect_into_vec`: the result holds one element per vertex, in
/// index order, each produced by the closure; the closure only calls
/// the verified `dodg_entry`.
#[verifier::external_body]
fn par_dodg_entries(g: &StaticGraph, n: usize) -> (r: Vec<(usize, Vec<usize>)>)
    requires
        g.wf(),
        n == g.out_rows().len(),
    ensures
        r@.len() == n,
        forall|u: int|
            0 <= u < n ==> (#[trigger] r@[u]).0 == g.out_rows()[u].len() && r@[u].1@
                == spec_dodg_row(g.out_rows(), u as usize),
{
    let mut big: Vec<(usize, Vec<usize>)> = Vec::with_capacity(n);
    (0..n).into_par_iter().map(|u| dodg_entry(g, u)).collect_into_vec(&mut big);
    big
}

/// Relies on rayon's `into_par_iter` over `0..n` with `map` and
/// `unzip`: the two results hold, in index order, the two halves of the
/// closure's pairs; the closure only calls the verified `dodg_entry`.
#[verifier::external_body]
fn par_dodg_split(g: &StaticGraph, n: usize) -> (r: (Vec<usize>, Vec<Vec<usize>>))
    requires
        g.wf(),
        n == g.out_rows().len(),
    ensures
        r.0@.len() == n,
        r.1@.len() == n,
        forall|u: int| 0 <= u < n ==> (#[trigger] r.0@[u]) == g.out_rows()[u].len(),
        forall|u: int|
            0 <= u < n ==> (#[trigger] r.1@[u])@ == spec_dodg_row(g.out_rows(), u as usize),
{
    (0..n).into_par_iter().map(|u| dodg_entry(g, u)).unzip()
}

/// Relies on rayon's parallel `map` + `sum` over the partition list:
/// the returned value is the sum over all listed blocks of the
/// closure's result; the closure picks the block's bounds and calls the
/// verified `count_block_rows`.
#[verifier::external_body]
fn par_count_block_rows(
    dodg: &GraphMatrix,
    degrees: &Vec<usize>,
    parts: &Vec<(usize, usize)>,
) -> (r: usize)
    requires
        dodg.wf(),
        dodg_wf(dodg@, degrees@),
        forall|t: int|
            0 <= t < parts@.len() ==> (#[trigger] parts@[t]).0 <= parts@[t].1 <= dodg@.len(),
        forall|t: int|
            0 <= t < parts@.len() ==> block_hits(
                dodg@,
                degrees@,
                (#[trigger] parts@[t]).0 as int,
                parts@[t].1 as int,
            ) <= usize::MAX,
        blocks_total(dodg@, degrees@, parts@, parts@.len() as int) <= usize::MAX,
    ensures
        r == blocks_total(dodg@, degrees@, parts@, parts@.len() as int),
{
    parts.par_iter().map(|p| count_block_rows(dodg, degrees, p.0, p.1)).sum()
}

/// Relies on rayon's parallel `map` + `sum` over the partition list:
/// the returned value is the sum over all listed blocks of the
/// closure's result; the closure picks the block's bounds and calls the
/// verified `count_block`.
#[verifier::external_body]
fn par_count_block_vecs(
    dodg: &Vec<Vec<usize>>,
    degrees: &Vec<usize>,
    parts: &Vec<(usize, usize)>,
) -> (r: usize)
    requires
        dodg_wf(dodg.deep_view(), degrees@),
        forall|t: int|
            0 <= t < parts@.len() ==> (#[trigger] parts@[t]).0 <= parts@[t].1 <= dodg@.len(),
        forall|t: int|
            0 <= t < parts@.len() ==> block_hits(
                dodg.deep_view(),
                degrees@,
                (#[trigger] parts@[t]).0 as int,
                parts@[t].1 as int,
            ) <= usize::MAX,
        blocks_total(dodg.deep_view(), degrees@, parts@, parts@.len() as int) <= usize::MAX,
    ensures
        r == blocks_total(dodg.deep_view(), degrees@, parts@, parts@.len() as int),
{
    parts.par_iter().map(|p| count_block(dodg, degrees, p.0, p.1)).sum()
}

/// The oriented rows of a well-formed row table form a well-formed
/// oriented structure, no row growing past its source row.
pub proof fn lemma_dodg_of_wf(rows: Seq<Seq<usize>>)
    requires
        rows.len() <= usize::MAX,
        rows_wf(rows),
    ensures
        dodg_wf(dodg_of(rows), degrees_of(rows)),
        forall|t: int| 0 <= t < rows.len() ==> (#[trigger] dodg_of(rows)[t]).len() <= rows[t].len(),
{
    let n = rows.len() as int;
    assert forall|t: int| 0 <= t < n implies strictly_sorted(#[trigger] dodg_of(rows)[t])
        && dodg_of(rows)[t].len() <= rows[t].len() by {
        lemma_dodg_row_rec_props(rows, t as usize, rows[t].len() as int);
    }
    assert forall|t: int, k: int|
        0 <= t < n && 0 <= k < dodg_of(rows)[t].len() implies (#[trigger] dodg_of(rows)[t][k])
        < n by {
        lemma_dodg_row_rec_props(rows, t as usize, rows[t].len() as int);
        let x = dodg_of(rows)[t][k];
        assert(dodg_of(rows)[t].contains(x));
        let s = choose|s: int|
            0 <= s < rows[t].len() && rows[t][s] == x && keep_order(degrees_of(rows), t as usize, x);
    }
}

/// Count triangles with the parallel pipeline: oriented rows built by a
/// parallel per-vertex map, flattened into one row-compressed
/// structure, split into contiguous blocks balanced by squared row
/// length, and counted block by block by independent workers whose
/// private sums are added at the end.
pub fn threaded_triangles(g: &StaticGraph, n_workers: usize) -> (r: usize)
    requires
        g.wf(),
        n_workers >= 1,
        total_entries(g.out_rows()) * total_entries(g.out_rows()) <= usize::MAX,
    ensures
        r == spec_triangles(g.out_rows()),
{
    let ghost rows = g.out_rows();
    let n = g.nv();
    proof {
        g.lemma_wf();
        lemma_triangles_bound(rows);
        lemma_dodg_of_wf(rows);
    }
    let bigvec = par_dodg_entries(g, n);
    let mut degs: Vec<usize> = Vec::new();
    let mut indptr: Vec<usize> = Vec::new();
    let mut indices: Vec<usize> = Vec::new();
    indptr.push(0);
    for u in 0..n
        invariant
            g.wf(),
            rows == g.out_rows(),
            rows_wf(rows),
            n == rows.len(),
            bigvec@.len() == n,
            forall|t: int|
                0 <= t < n ==> (#[trigger] bigvec@[t]).0 == rows[t].len() && bigvec@[t].1@
                    == spec_dodg_row(rows, t as usize),
            degs@.len() == u,
            forall|t: int| 0 <= t < u ==> (#[trigger] degs@[t]) == rows[t].len(),
            indptr@.len() == u + 1,
            indptr@[0] == 0,
            indptr@.last() == indices@.len(),
            forall|i: int| 0 <= i < u ==> (#[trigger] indptr@[i]) <= indptr@[i + 1],
            forall|j: int|
                0 <= j < u ==> csr_row(indptr@, indices@, j) == spec_dodg_row(rows, j as usize),
    {
        let e = &bigvec[u];
        degs.push(e.0);
        let ghost old_indices = indices@;
        let ghost old_indptr = indptr@;
        let row = &e.1;
        let rl = row.len();
        let mut t: usize = 0;
        while t < rl
            invariant
                rl == row@.len(),
                0 <= t <= rl,
                indices@ == old_indices + row@.take(t as int),
            decreases rl - t,
        {
            let x = row[t];
            indices.push(x);
            proof {
                assert(old_indices + row@.take(t + 1) =~= (old_indices + row@.take(
                    t as int,
                )).push(row@[t as int]));
            }
            t = t + 1;
        }
        proof {
            assert(row@.take(rl as int) =~= row@);
        }
        let total_now = indices.len();
        indptr.push(total_now);
        proof {
            assert(indptr@ =~= old_indptr.push(total_now));
            assert(csr_row(indptr@, indices@, u as int) =~= row@);
            assert forall|j: int| 0 <= j < u implies csr_row(indptr@, indices@, j)
                == spec_dodg_row(rows, j as usize) by {
                lemma_monotone_prefix(old_indptr, j + 1, old_indptr.len() - 1);
                lemma_monotone_prefix(old_indptr, j, j + 1);
                assert(csr_row(indptr@, indices@, j) =~= csr_row(old_indptr, old_indices, j));
            }
        }
    }
    proof {
        assert forall|j: int| 0 <= j < n implies #[trigger] csr_rows(indptr@, indices@)[j]
            == spec_dodg_row(rows, j as usize) by {}
        assert forall|j: int| 0 <= j < n implies csr_rows(indptr@, indices@)[j] == dodg_of(
            rows,
        )[j] by {}
        assert(csr_rows(indptr@, indices@) =~= dodg_of(rows));
        assert(rows_wf(csr_rows(indptr@, indices@)));
    }
    let dodg = GraphMatrix::new(indptr, indices);
    proof {
        assert(dodg@ == dodg_of(rows));
        assert(degs@ =~= degrees_of(rows));
    }
    let ghost tot = total_entries(rows);
    let mut weights: Vec<usize> = Vec::new();
    for u in 0..n
        invariant
            dodg.wf(),
            dodg@ == dodg_of(rows),
            rows_wf(rows),
            dodg@.len() == n,
            n == rows.len(),
            tot == total_entries(rows),
            tot * tot <= usize::MAX,
            forall|t: int|
                0 <= t < n ==> (#[trigger] dodg@[t]).len() <= rows[t].len(),
            weights@.len() == u,
            forall|t: int|
                0 <= t < u ==> (#[trigger] weights@[t]) == dodg@[t].len() * dodg@[t].len(),
    {
        let l = dodg.row_len(u);
        proof {
            lemma_row_le_total(rows, u as int);
            assert(l * l <= tot * tot) by (nonlinear_arith)
                requires
                    0 <= l,
                    l <= tot,
            ;
        }
        weights.push(l * l);
    }
    proof {
        lemma_sq_weights_bound(dodg@, weights@, n as int);
        lemma_sum_lens_le(dodg@, rows, n as int);
        lemma_total_entries_sum_lens(rows);
        lemma_sum_lens_nonneg(dodg@, n as int);
        let sd = sum_lens(dodg@, n as int);
        assert(sd * sd <= tot * tot) by (nonlinear_arith)
            requires
                0 <= sd,
                sd <= tot,
        ;
    }
    let wtotal = sum_weights(&weights);
    if wtotal == 0 {
        proof {
            lemma_weights_zero(weights@, n as int);
            assert forall|t: int| 0 <= t < n implies (#[trigger] dodg@[t]).len() == 0 by {
                assert(weights@[t] == 0);
                assert(weights@[t] == dodg@[t].len() * dodg@[t].len());
                let l = dodg@[t].len() as int;
                if l >= 1 {
                    assert(l * l >= 1) by (nonlinear_arith)
                        requires
                            l >= 1,
                    ;
                }
            }
            lemma_block_hits_empty(dodg@, degs@, n as int);
        }
        return 0;
    }
    let parts = optimal_contiguous_partition(&weights, n_workers);
    proof {
        assert forall|t: int|
            0 <= t < parts@.len() implies (#[trigger] parts@[t]).0 <= parts@[t].1
            <= dodg@.len() by {
            lemma_parts_mono(parts@, t);
        }
        assert forall|t: int|
            0 <= t < parts@.len() implies block_hits(
            dodg@,
            degs@,
            (#[trigger] parts@[t]).0 as int,
            parts@[t].1 as int,
        ) <= usize::MAX by {
            lemma_parts_mono(parts@, t);
            lemma_block_hits_le(dodg@, degs@, parts@[t].0 as int, parts@[t].1 as int);
        }
        lemma_blocks_total_tile(dodg@, degs@, parts@, parts@.len() as int);
    }
    par_count_block_rows(&dodg, &degs, &parts)
}

/// Count triangles with the parallel pipeline over per-vertex owned
/// rows: oriented rows built by a parallel per-vertex map and unzipped,
/// split into contiguous blocks balanced by row length, and counted
/// block by block by independent workers whose private sums are added
/// at the end.
pub fn threaded_triangles_csr(g: &StaticGraph, n_workers: usize) -> (r: usize)
    requires
        g.wf(),
        n_workers >= 1,
        total_entries(g.out_rows()) * total_entries(g.out_rows()) <= usize::MAX,
    ensures
        r == spec_triangles(g.out_rows()),
{
    let ghost rows = g.out_rows();
    let n = g.nv();
    proof {
        g.lemma_wf();
        lemma_triangles_bound(rows);
        lemma_dodg_of_wf(rows);
    }
    let pair = par_dodg_split(g, n);
    let degs = pair.0;
    let dodg = pair.1;
    proof {
        assert(degs@ =~= degrees_of(rows));
        assert forall|t: int| 0 <= t < n implies dodg.deep_view()[t] == dodg_of(rows)[t] by {
            assert(dodg.deep_view()[t] =~= (dodg@[t])@);
        }
        assert(dodg.deep_view() =~= dodg_of(rows));
    }
    let ghost tot = total_entries(rows);
    let mut weights: Vec<usize> = Vec::new();
    for u in 0..n
        invariant
            dodg.deep_view() == dodg_of(rows),
            rows_wf(rows),
            dodg@.len() == n,
            n == rows.len(),
            tot == total_entries(rows),
            tot * tot <= usize::MAX,
            forall|t: int|
                0 <= t < n ==> (#[trigger] dodg.deep_view()[t]).len() <= rows[t].len(),
            weights@.len() == u,
            forall|t: int|
                0 <= t < u ==> (#[trigger] weights@[t]) == dodg.deep_view()[t].len(),
    {
        let l = dodg[u].len();
        proof {
            assert(dodg.deep_view()[u as int] =~= (dodg@[u as int])@);
        }
        weights.push(l);
    }
    proof {
        lemma_lens_weights(dodg.deep_view(), weights@, n as int);
        lemma_sum_lens_le(dodg.deep_view(), rows, n as int);
        lemma_total_entries_sum_lens(rows);
        lemma_sum_lens_nonneg(dodg.deep_view(), n as int);
        let sd = sum_lens(dodg.deep_view(), n as int);
        assert(tot <= usize::MAX && sd <= usize::MAX) by (nonlinear_arith)
            requires
                0 <= sd,
                sd <= tot,
                tot * tot <= usize::MAX,
        ;
    }
    let wtotal = sum_weights(&weights);
    if wtotal == 0 {
        proof {
            lemma_weights_zero(weights@, n as int);
            assert forall|t: int|
                0 <= t < n implies (#[trigger] dodg.deep_view()[t]).len() == 0 by {
                assert(weights@[t] == 0);
                assert(weights@[t] == dodg.deep_view()[t].len());
            }
            lemma_block_hits_empty(dodg.deep_view(), degs@, n as int);
        }
        return 0;
    }
    let parts = optimal_contiguous_partition(&weights, n_workers);
    proof {
        assert forall|t: int|
            0 <= t < parts@.len() implies (#[trigger] parts@[t]).0 <= parts@[t].1
            <= dodg@.len() by {
            lemma_parts_mono(parts@, t);
        }
        assert forall|t: int|
            0 <= t < parts@.len() implies block_hits(
            dodg.deep_view(),
            degs@,
            (#[trigger] parts@[t]).0 as int,
            parts@[t].1 as int,
        ) <= usize::MAX by {
            lemma_parts_mono(parts@, t);
            lemma_block_hits_le(dodg.deep_view(), degs@, parts@[t].0 as int, parts@[t].1 as int);
        }
        lemma_blocks_total_tile(dodg.deep_view(), degs@, parts@, parts@.len() as int);
    }
    par_count_block_vecs(&dodg, &degs, &parts)
}

proof fn lemma_lens_weights(dv: Seq<Seq<usize>>, ws: Seq<usize>, k: int)
    requires
        0 <= k <= dv.len(),
        forall|t: int| 0 <= t < k ==> (#[trigger] ws[t]) == dv[t].len(),
    ensures
        weights_sum(ws, k) == sum_lens(dv, k),
    decreases k,
{
    if k > 0 {
        lemma_lens_weights(dv, ws, k - 1);
    }
}

/// Law: the sequential and parallel strategies agree on every graph,
/// whatever the worker count — each counting entry point returns
/// exactly `spec_triangles` of the graph's rows, so any two results for
/// the same graph coincide.
pub proof fn lemma_strategies_agree(rows: Seq<Seq<usize>>, a: int, b: int)
    requires
        a == spec_triangles(rows),
        b == spec_triangles(rows),
    ensures
        a == b,
{
}

} // verus!
