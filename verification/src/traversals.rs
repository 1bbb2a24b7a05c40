//! Single-source traversals: level-synchronous breadth-first search and
//! priority-queue based weighted shortest paths.

use crate::bitset::{bitset_view, BitSet};
use crate::matrix::rows_wf;
use crate::pqueue::{queue_view, MinQueue};
use crate::sorting::sort_ascending;
use crate::traits::Graph;
use crate::GraphError;
use vstd::prelude::*;

verus! {

/// Number of set bits.
pub open spec fn count_trues(s: Seq<bool>) -> int
    decreases s.len(),
{
    if s.len() == 0 {
        0
    } else {
        count_trues(s.drop_last()) + if s.last() {
            1int
        } else {
            0int
        }
    }
}

proof fn lemma_count_trues_bounds(s: Seq<bool>)
    ensures
        0 <= count_trues(s) <= s.len(),
    decreases s.len(),
{
    if s.len() > 0 {
        lemma_count_trues_bounds(s.drop_last());
    }
}

proof fn lemma_count_trues_update(s: Seq<bool>, i: int, b: bool)
    requires
        0 <= i < s.len(),
    ensures
        count_trues(s.update(i, b)) == count_trues(s) - (if s[i] {
            1int
        } else {
            0int
        }) + (if b {
            1int
        } else {
            0int
        }),
    decreases s.len(),
{
    if i == s.len() - 1 {
        assert(s.update(i, b).drop_last() =~= s.drop_last());
        assert(s.update(i, b).last() == b);
    } else {
        assert(s.update(i, b).drop_last() =~= s.drop_last().update(i, b));
        lemma_count_trues_update(s.drop_last(), i, b);
        assert(s.drop_last()[i] == s[i]);
        assert(s.update(i, b).last() == s.last());
    }
}

proof fn lemma_count_trues_all_false(n: nat)
    ensures
        count_trues(Seq::new(n, |i: int| false)) == 0,
    decreases n,
{
    if n > 0 {
        lemma_count_trues_all_false((n - 1) as nat);
        assert(Seq::new(n, |i: int| false).drop_last() =~= Seq::new(
            (n - 1) as nat,
            |i: int| false,
        ));
    }
}

/// `u` is a discovering in-neighbor of `v`: an edge `u -> v` exists and
/// `v` sits exactly one level below `u`.
pub open spec fn bfs_parent(rows: Seq<Seq<usize>>, lv: Seq<usize>, u: usize, v: usize) -> bool {
    &&& u < lv.len()
    &&& lv[u as int] != usize::MAX
    &&& rows[u as int].contains(v)
    &&& lv[v as int] == lv[u as int] + 1
}

/// Some in-neighbor discovered `v` one level earlier.
pub open spec fn bfs_has_parent(rows: Seq<Seq<usize>>, lv: Seq<usize>, v: usize) -> bool {
    exists|u: usize| bfs_parent(rows, lv, u, v)
}

/// Every successor of `u` has been reached, no more than one level below.
pub open spec fn bfs_settled(rows: Seq<Seq<usize>>, lv: Seq<usize>, u: int) -> bool {
    forall|w: usize|
        #[trigger] rows[u].contains(w) ==> lv[w as int] != usize::MAX && lv[w as int] <= lv[u] + 1
}

/// `v` can be reached from `src` in at most `k` forward steps.
pub open spec fn reach_within(rows: Seq<Seq<usize>>, src: usize, v: usize, k: nat) -> bool
    decreases k,
{
    if v == src {
        true
    } else if k == 0 {
        false
    } else {
        exists|u: usize|
            u < rows.len() && (#[trigger] rows[u as int].contains(v)) && reach_within(
                rows,
                src,
                u,
                (k - 1) as nat,
            )
    }
}

/// Some directed path leads from `src` to `v`.
pub open spec fn reachable(rows: Seq<Seq<usize>>, src: usize, v: usize) -> bool {
    exists|k: nat| reach_within(rows, src, v, k)
}

proof fn lemma_reached_is_reachable(rows: Seq<Seq<usize>>, lv: Seq<usize>, src: usize, v: usize)
    requires
        src < lv.len(),
        lv.len() == rows.len(),
        lv[src as int] == 0,
        forall|x: usize|
            x < lv.len() && lv[x as int] != usize::MAX && x != src ==> #[trigger] bfs_has_parent(
                rows,
                lv,
                x,
            ),
        v < lv.len(),
        lv[v as int] != usize::MAX,
    ensures
        reachable(rows, src, v),
    decreases lv[v as int],
{
    if v == src {
        assert(reach_within(rows, src, v, 0));
    } else {
        assert(bfs_has_parent(rows, lv, v));
        let u = choose|u: usize| bfs_parent(rows, lv, u, v);
        lemma_reached_is_reachable(rows, lv, src, u);
        let k = choose|k: nat| reach_within(rows, src, u, k);
        assert(reach_within(rows, src, v, k + 1));
    }
}

proof fn lemma_reachable_is_reached(
    rows: Seq<Seq<usize>>,
    lv: Seq<usize>,
    src: usize,
    v: usize,
    k: nat,
)
    requires
        src < lv.len(),
        lv.len() == rows.len(),
        lv[src as int] == 0,
        forall|u: usize|
            u < lv.len() && lv[u as int] != usize::MAX ==> #[trigger] bfs_settled(
                rows,
                lv,
                u as int,
            ),
        v < lv.len(),
        reach_within(rows, src, v, k),
    ensures
        lv[v as int] != usize::MAX,
    decreases k,
{
    if v != src {
        let u = choose|u: usize|
            u < rows.len() && (#[trigger] rows[u as int].contains(v)) && reach_within(
                rows,
                src,
                u,
                (k - 1) as nat,
            );
        lemma_reachable_is_reached(rows, lv, src, u, (k - 1) as nat);
        assert(bfs_settled(rows, lv, u as int));
        assert(rows[u as int].contains(v));
    }
}

/// Law: a level assignment with the traversal's two invariants — every
/// reached vertex has a discovering in-neighbor one level up, and every
/// reached vertex's successors are reached — marks exactly the vertices
/// that some directed path leads to from the source.
pub proof fn lemma_bfs_reaches_exactly(rows: Seq<Seq<usize>>, lv: Seq<usize>, src: usize)
    requires
        src < lv.len(),
        lv.len() == rows.len(),
        lv[src as int] == 0,
        forall|x: usize|
            x < lv.len() && lv[x as int] != usize::MAX && x != src ==> #[trigger] bfs_has_parent(
                rows,
                lv,
                x,
            ),
        forall|u: usize|
            u < lv.len() && lv[u as int] != usize::MAX ==> #[trigger] bfs_settled(
                rows,
                lv,
                u as int,
            ),
    ensures
        forall|v: usize|
            v < lv.len() ==> ((lv[v as int] != usize::MAX) <==> reachable(rows, src, v)),
{
    assert forall|v: usize| v < lv.len() && lv[v as int] != usize::MAX implies reachable(
        rows,
        src,
        v,
    ) by {
        lemma_reached_is_reachable(rows, lv, src, v);
    }
    assert forall|v: usize| v < lv.len() && reachable(rows, src, v) implies lv[v as int]
        != usize::MAX by {
        let k = choose|k: nat| reach_within(rows, src, v, k);
        lemma_reachable_is_reached(rows, lv, src, v, k);
    }
}

proof fn lemma_level_le_at(
    rows: Seq<Seq<usize>>,
    a: Seq<usize>,
    b: Seq<usize>,
    src: usize,
    v: usize,
)
    requires
        src < a.len(),
        a.len() == rows.len(),
        b.len() == rows.len(),
        a[src as int] == 0,
        b[src as int] == 0,
        forall|x: usize|
            x < b.len() && b[x as int] != usize::MAX && x != src ==> #[trigger] bfs_has_parent(
                rows,
                b,
                x,
            ),
        forall|u: usize|
            u < a.len() && a[u as int] != usize::MAX ==> #[trigger] bfs_settled(rows, a, u as int),
        v < b.len(),
        b[v as int] != usize::MAX,
    ensures
        a[v as int] != usize::MAX,
        a[v as int] <= b[v as int],
    decreases b[v as int],
{
    if v != src {
        assert(bfs_has_parent(rows, b, v));
        let u = choose|u: usize| bfs_parent(rows, b, u, v);
        lemma_level_le_at(rows, a, b, src, u);
        assert(bfs_settled(rows, a, u as int));
        assert(rows[u as int].contains(v));
    }
}

/// Law: the traversal's invariants pin the level array down — any two
/// assignments that both satisfy them are equal.  So repeated runs over
/// an unmodified graph return identical results, and a reached vertex's
/// level is exactly its hop distance: no assignment satisfying the
/// invariants can place it higher or lower.
pub proof fn lemma_bfs_levels_unique(rows: Seq<Seq<usize>>, a: Seq<usize>, b: Seq<usize>, src: usize)
    requires
        src < a.len(),
        a.len() == rows.len(),
        b.len() == rows.len(),
        a[src as int] == 0,
        b[src as int] == 0,
        forall|x: usize|
            x < a.len() && a[x as int] != usize::MAX && x != src ==> #[trigger] bfs_has_parent(
                rows,
                a,
                x,
            ),
        forall|x: usize|
            x < b.len() && b[x as int] != usize::MAX && x != src ==> #[trigger] bfs_has_parent(
                rows,
                b,
                x,
            ),
        forall|u: usize|
            u < a.len() && a[u as int] != usize::MAX ==> #[trigger] bfs_settled(rows, a, u as int),
        forall|u: usize|
            u < b.len() && b[u as int] != usize::MAX ==> #[trigger] bfs_settled(rows, b, u as int),
        a.len() <= usize::MAX,
    ensures
        a == b,
{
    assert forall|i: int| 0 <= i < a.len() implies a[i] == b[i] by {
        let v = i as usize;
        assert(a[v as int] == a[i] && b[v as int] == b[i]);
        if b[v as int] != usize::MAX {
            lemma_level_le_at(rows, a, b, src, v);
        }
        if a[v as int] != usize::MAX {
            lemma_level_le_at(rows, b, a, src, v);
        }
    }
    assert(a =~= b);
}

/// Single-source hop distances by level-synchronous breadth-first search.
///
/// Unreached vertices keep the distance type's maximum value as sentinel.
/// Each new frontier is sorted by ascending vertex id before it is
/// traversed, fixing the iteration order deterministically.
#[verifier::rlimit(80)]
pub fn bfs<G: Graph>(g: &G, src: usize) -> (r: Result<Vec<usize>, GraphError>)
    requires
        g.wf(),
    ensures
        match r {
            Ok(levels) => {
                &&& src < g.out_rows().len()
                &&& levels@.len() == g.out_rows().len()
                &&& levels@[src as int] == 0
                &&& forall|v: usize|
                    v < levels@.len() && levels@[v as int] != usize::MAX && v != src
                        ==> #[trigger] bfs_has_parent(g.out_rows(), levels@, v)
                &&& forall|u: usize|
                    u < levels@.len() && levels@[u as int] != usize::MAX
                        ==> #[trigger] bfs_settled(g.out_rows(), levels@, u as int)
                &&& forall|v: usize|
                    v < levels@.len() ==> ((levels@[v as int] != usize::MAX) <==> reachable(
                        g.out_rows(),
                        src,
                        v,
                    ))
            },
            Err(e) => src >= g.out_rows().len() && e == GraphError::OutOfRange,
        },
{
    let n = g.nv();
    if src >= n {
        return Err(GraphError::OutOfRange);
    }
    proof {
        g.lemma_wf();
    }
    let ghost rows = g.out_rows();
    let mut visited = BitSet::repeat(false, n);
    let mut levels: Vec<usize> = Vec::new();
    for k in 0..n
        invariant
            levels@.len() == k,
            forall|t: int| 0 <= t < k ==> levels@[t] == usize::MAX,
    {
        levels.push(usize::MAX);
    }
    let mut cur_level: Vec<usize> = Vec::new();
    let mut next_level: Vec<usize> = Vec::new();
    visited.set(src, true);
    cur_level.push(src);
    levels[src] = 0;
    let mut n_level: usize = 1;
    proof {
        lemma_count_trues_all_false(n as nat);
        lemma_count_trues_update(Seq::new(n as nat, |i: int| false), src as int, true);
        assert(cur_level@[0] == src);
        assert(cur_level@.contains(src));
    }
    while cur_level.len() > 0
        invariant
            g.wf(),
            rows == g.out_rows(),
            rows.len() == n,
            rows_wf(rows),
            src < n,
            levels@.len() == n,
            bitset_view(visited).len() == n,
            forall|v: int|
                0 <= v < n ==> ((#[trigger] bitset_view(visited)[v]) <==> levels@[v]
                    != usize::MAX),
            levels@[src as int] == 0,
            1 <= n_level,
            n_level <= count_trues(bitset_view(visited)),
            count_trues(bitset_view(visited)) <= n,
            next_level@.len() == 0,
            forall|t: int|
                0 <= t < cur_level@.len() ==> (#[trigger] cur_level@[t]) < n && levels@[cur_level@[t] as int]
                    + 1 == n_level,
            forall|v: int| 0 <= v < n && levels@[v] != usize::MAX ==> levels@[v] + 1 <= n_level,
            forall|v: usize|
                v < n && levels@[v as int] != usize::MAX && v != src
                    ==> #[trigger] bfs_has_parent(rows, levels@, v),
            forall|u: usize|
                u < n && levels@[u as int] != usize::MAX && !cur_level@.contains(u)
                    ==> #[trigger] bfs_settled(rows, levels@, u as int),
        decreases n - count_trues(bitset_view(visited)), cur_level@.len(),
    {
        let ghost c0 = count_trues(bitset_view(visited));
        let ghost cur0 = cur_level@;
        proof {
            assert(cur0.subrange(0, cur0.len() as int) =~= cur0);
        }
        let mut idx: usize = 0;
        while idx < cur_level.len()
            invariant
                g.wf(),
                rows == g.out_rows(),
                rows.len() == n,
                rows_wf(rows),
                src < n,
                levels@.len() == n,
                bitset_view(visited).len() == n,
                forall|v: int|
                    0 <= v < n ==> ((#[trigger] bitset_view(visited)[v]) <==> levels@[v]
                        != usize::MAX),
                levels@[src as int] == 0,
                1 <= n_level,
                n_level <= c0,
                cur_level@ == cur0,
                0 <= idx <= cur0.len(),
                count_trues(bitset_view(visited)) == c0 + next_level@.len(),
                count_trues(bitset_view(visited)) <= n,
                forall|t: int|
                    0 <= t < cur0.len() ==> (#[trigger] cur0[t]) < n && levels@[cur0[t] as int] + 1
                        == n_level,
                forall|t: int|
                    0 <= t < next_level@.len() ==> (#[trigger] next_level@[t]) < n && levels@[next_level@[t] as int]
                        == n_level,
                forall|v: int| 0 <= v < n && levels@[v] != usize::MAX ==> levels@[v] <= n_level,
                forall|v: usize|
                    v < n && (#[trigger] levels@[v as int]) != usize::MAX && levels@[v as int]
                        == n_level ==> next_level@.contains(v),
                forall|v: usize|
                    v < n && levels@[v as int] != usize::MAX && v != src
                        ==> #[trigger] bfs_has_parent(rows, levels@, v),
                forall|u: usize|
                    u < n && levels@[u as int] != usize::MAX && !cur0.subrange(
                        idx as int,
                        cur0.len() as int,
                    ).contains(u) && !next_level@.contains(u) ==> #[trigger] bfs_settled(
                        rows,
                        levels@,
                        u as int,
                    ),
            decreases cur0.len() - idx,
        {
            let v = cur_level[idx];
            proof {
                assert(cur0[idx as int] == v);
                assert(v < n);
            }
            let row = g.out_neighbors(v).unwrap();
            let row_n = row.len();
            let mut j: usize = 0;
            while j < row_n
                invariant
                    g.wf(),
                    rows == g.out_rows(),
                    rows.len() == n,
                    rows_wf(rows),
                    src < n,
                    levels@.len() == n,
                    bitset_view(visited).len() == n,
                    forall|v2: int|
                        0 <= v2 < n ==> ((#[trigger] bitset_view(visited)[v2]) <==> levels@[v2]
                            != usize::MAX),
                    levels@[src as int] == 0,
                    1 <= n_level,
                    n_level <= c0,
                    cur_level@ == cur0,
                    0 <= idx < cur0.len(),
                    v == cur0[idx as int],
                    v < n,
                    levels@[v as int] + 1 == n_level,
                    row@ == rows[v as int],
                    row_n == row@.len(),
                    0 <= j <= row_n,
                    count_trues(bitset_view(visited)) == c0 + next_level@.len(),
                    count_trues(bitset_view(visited)) <= n,
                    forall|t: int|
                        0 <= t < cur0.len() ==> (#[trigger] cur0[t]) < n && levels@[cur0[t] as int]
                            + 1 == n_level,
                    forall|t: int|
                        0 <= t < next_level@.len() ==> (#[trigger] next_level@[t]) < n
                            && levels@[next_level@[t] as int] == n_level,
                    forall|v2: int| 0 <= v2 < n && levels@[v2] != usize::MAX ==> levels@[v2] <= n_level,
                    forall|v2: usize|
                        v2 < n && (#[trigger] levels@[v2 as int]) != usize::MAX && levels@[v2 as int]
                            == n_level ==> next_level@.contains(v2),
                    forall|t: int|
                        0 <= t < j ==> levels@[(#[trigger] row@[t]) as int] != usize::MAX
                            && levels@[row@[t] as int] <= n_level,
                    forall|v2: usize|
                        v2 < n && levels@[v2 as int] != usize::MAX && v2 != src
                            ==> #[trigger] bfs_has_parent(rows, levels@, v2),
                    forall|u: usize|
                        u < n && levels@[u as int] != usize::MAX && !cur0.subrange(
                            idx as int,
                            cur0.len() as int,
                        ).contains(u) && !next_level@.contains(u) ==> #[trigger] bfs_settled(
                            rows,
                            levels@,
                            u as int,
                        ),
                decreases row_n - j,
            {
                let w = row[j];
                proof {
                    assert(rows[v as int][j as int] == w);
                    assert(rows[v as int].contains(w));
                    assert(w < n);
                }
                if !visited.get(w) {
                    let ghost vis0 = bitset_view(visited);
                    let ghost lv0 = levels@;
                    let ghost nxt0 = next_level@;
                    next_level.push(w);
                    visited.set(w, true);
                    levels[w] = n_level;
                    proof {
                        lemma_count_trues_update(vis0, w as int, true);
                        lemma_count_trues_bounds(bitset_view(visited));
                        assert(levels@ == lv0.update(w as int, n_level));
                        assert(next_level@ == nxt0.push(w));
                        assert(n_level < usize::MAX);
                        assert forall|v2: usize|
                            v2 < n && (#[trigger] levels@[v2 as int]) != usize::MAX && levels@[v2 as int]
                                == n_level implies next_level@.contains(v2) by {
                            if v2 == w {
                                assert(next_level@[nxt0.len() as int] == w);
                            } else {
                                assert(lv0[v2 as int] == n_level);
                                assert(nxt0.contains(v2));
                                let t = choose|t: int| 0 <= t < nxt0.len() && nxt0[t] == v2;
                                assert(next_level@[t] == v2);
                            }
                        }
                        // the fresh vertex got a discovering parent: v itself
                        assert(bfs_parent(rows, levels@, v, w));
                        assert forall|v2: usize|
                            v2 < n && levels@[v2 as int] != usize::MAX && v2 != src implies
                        #[trigger] bfs_has_parent(rows, levels@, v2) by {
                            if v2 == w {
                                assert(bfs_parent(rows, levels@, v, w));
                            } else {
                                assert(lv0[v2 as int] == levels@[v2 as int]);
                                if lv0[v2 as int] != usize::MAX && v2 != src {
                                    assert(bfs_has_parent(rows, lv0, v2));
                                    let u = choose|u: usize| bfs_parent(rows, lv0, u, v2);
                                    assert(lv0[u as int] != usize::MAX);
                                    assert(levels@[u as int] == lv0[u as int]);
                                    assert(bfs_parent(rows, levels@, u, v2));
                                }
                            }
                        }
                        // settled vertices stay settled: their successors were
                        // all reached already, so no level they see has changed
                        assert forall|u: usize|
                            u < n && levels@[u as int] != usize::MAX && !cur0.subrange(
                                idx as int,
                                cur0.len() as int,
                            ).contains(u) && !next_level@.contains(u) implies #[trigger] bfs_settled(
                            rows,
                            levels@,
                            u as int,
                        ) by {
                            assert(!nxt0.contains(u)) by {
                                if nxt0.contains(u) {
                                    let t = choose|t: int|
                                        0 <= t < nxt0.len() && nxt0[t] == u;
                                    assert(next_level@[t] == u);
                                }
                            }
                            assert(u != w) by {
                                assert(next_level@[nxt0.len() as int] == w);
                            }
                            assert(lv0[u as int] == levels@[u as int]);
                            assert(bfs_settled(rows, lv0, u as int));
                            assert forall|w2: usize| #[trigger]
                                rows[u as int].contains(w2) implies levels@[w2 as int]
                                != usize::MAX && levels@[w2 as int] <= levels@[u as int] + 1 by {
                                assert(lv0[w2 as int] != usize::MAX);
                                assert(w2 != w);
                                assert(levels@[w2 as int] == lv0[w2 as int]);
                            }
                        }
                    }
                }
                j = j + 1;
            }
            idx = idx + 1;
            proof {
                // v's whole row has been examined, so v is now settled
                assert(bfs_settled(rows, levels@, v as int)) by {
                    assert forall|w2: usize| #[trigger]
                        rows[v as int].contains(w2) implies levels@[w2 as int] != usize::MAX
                        && levels@[w2 as int] <= levels@[v as int] + 1 by {
                        let t = choose|t: int|
                            0 <= t < rows[v as int].len() && rows[v as int][t] == w2;
                        assert(row@[t] == w2);
                    }
                }
                assert forall|u: usize|
                    u < n && levels@[u as int] != usize::MAX && !cur0.subrange(
                        idx as int,
                        cur0.len() as int,
                    ).contains(u) && !next_level@.contains(u) implies #[trigger] bfs_settled(
                    rows,
                    levels@,
                    u as int,
                ) by {
                    if u != v {
                        assert(!cur0.subrange(idx - 1, cur0.len() as int).contains(u)) by {
                            let sub = cur0.subrange(idx - 1, cur0.len() as int);
                            if sub.contains(u) {
                                let t = choose|t: int| 0 <= t < sub.len() && sub[t] == u;
                                assert(cur0[t + idx - 1] == u);
                                if t == 0 {
                                    assert(u == v);
                                } else {
                                    assert(cur0.subrange(idx as int, cur0.len() as int)[t - 1]
                                        == u);
                                }
                            }
                        }
                    }
                }
            }
        }
        // advance to the next level only when something new was reached;
        // an empty next frontier ends the traversal
        if next_level.len() > 0 {
            n_level = n_level + 1;
        }
        let ghost nxt_final = next_level@;
        cur_level.clear();
        core::mem::swap(&mut cur_level, &mut next_level);
        sort_ascending(&mut cur_level);
        proof {
            assert(next_level@.len() == 0);
            assert forall|t: int|
                0 <= t < cur_level@.len() implies (#[trigger] cur_level@[t]) < n
                && levels@[cur_level@[t] as int] + 1 == n_level by {
                assert(cur_level@.contains(cur_level@[t]));
                assert(nxt_final.contains(cur_level@[t]));
                let s = choose|s: int| 0 <= s < nxt_final.len() && nxt_final[s] == cur_level@[t];
            }
            assert forall|u: usize|
                u < n && levels@[u as int] != usize::MAX && !cur_level@.contains(u) implies
            #[trigger] bfs_settled(rows, levels@, u as int) by {
                assert(!nxt_final.contains(u));
                assert(!cur0.subrange(cur0.len() as int, cur0.len() as int).contains(u));
            }
        }
    }
    proof {
        assert forall|u: usize|
            u < n && levels@[u as int] != usize::MAX implies #[trigger] bfs_settled(
            rows,
            levels@,
            u as int,
        ) by {
            assert(cur_level@.len() == 0);
            assert(!cur_level@.contains(u));
        }
        lemma_bfs_reaches_exactly(rows, levels@, src);
    }
    Ok(levels)
}


/// Saturating addition: the distance type's maximum value stands for
/// "+infinity" and absorbs any further weight.
pub open spec fn sat_add(a: u64, b: u64) -> u64 {
    if a + b > u64::MAX {
        u64::MAX
    } else {
        (a + b) as u64
    }
}

/// Every successor of `u` has been offered a relaxation: some weight
/// the closure may return for the edge bounds the successor's recorded
/// distance by `u`'s distance plus that weight.
pub open spec fn relaxed_from<F: Fn(usize, usize) -> u64>(
    weights: F,
    rows: Seq<Seq<usize>>,
    dists: Seq<u64>,
    u: usize,
) -> bool {
    forall|x: usize|
        #[trigger] rows[u as int].contains(x) ==> exists|wt: u64|
            #[trigger] call_ensures(weights, (u, x), wt) && dists[x as int] <= sat_add(
                dists[u as int],
                wt,
            )
}

/// The edge `(u, x)` has been offered a relaxation at base distance
/// `d`: some weight the closure may return for it bounds `x`'s recorded
/// distance by `d` plus that weight.
pub open spec fn offered<F: Fn(usize, usize) -> u64>(
    weights: F,
    u: usize,
    x: usize,
    dists: Seq<u64>,
    d: u64,
) -> bool {
    exists|wt: u64|
        #[trigger] call_ensures(weights, (u, x), wt) && dists[x as int] <= sat_add(d, wt)
}

/// `p` is a directed walk through the rows: each entry steps to a
/// listed successor.
pub open spec fn is_path(rows: Seq<Seq<usize>>, p: Seq<usize>) -> bool {
    forall|i: int|
        0 <= i < p.len() - 1 ==> (#[trigger] p[i]) < rows.len() && rows[p[i] as int].contains(
            p[i + 1],
        )
}

/// `ws` weights the steps of `p`, each with a value the closure may
/// return for that edge.
pub open spec fn path_weights_ok<F: Fn(usize, usize) -> u64>(
    weights: F,
    p: Seq<usize>,
    ws: Seq<u64>,
) -> bool {
    &&& ws.len() + 1 == p.len()
    &&& forall|i: int|
        0 <= i < ws.len() ==> #[trigger] call_ensures(weights, (p[i], p[i + 1]), ws[i])
}

/// The saturated sum of a weight sequence.
pub open spec fn sat_sum(ws: Seq<u64>) -> u64
    decreases ws.len(),
{
    if ws.len() == 0 {
        0
    } else {
        sat_add(sat_sum(ws.drop_last()), ws.last())
    }
}

/// Some directed path from `src` to `x` has saturated weight `d` under
/// weights the closure may return.
pub open spec fn has_path_weight<F: Fn(usize, usize) -> u64>(
    weights: F,
    rows: Seq<Seq<usize>>,
    src: usize,
    x: usize,
    d: u64,
) -> bool {
    exists|p: Seq<usize>, ws: Seq<u64>|
        #![trigger path_weights_ok(weights, p, ws)]
        p.len() >= 1 && p[0] == src && p.last() == x && is_path(rows, p) && path_weights_ok(
            weights,
            p,
            ws,
        ) && d == sat_sum(ws)
}

/// The one-vertex path gives the source itself weight zero.
proof fn lemma_path_trivial<F: Fn(usize, usize) -> u64>(weights: F, rows: Seq<Seq<usize>>, src: usize)
    ensures
        has_path_weight(weights, rows, src, src, 0),
{
    let p = seq![src];
    let ws = Seq::<u64>::empty();
    assert(p.len() >= 1 && p[0] == src && p.last() == src);
    assert(is_path(rows, p));
    assert(path_weights_ok(weights, p, ws));
    assert(sat_sum(ws) == 0);
}

/// A weighted path extends along any listed edge with any weight the
/// closure may return for it.
proof fn lemma_path_extend<F: Fn(usize, usize) -> u64>(
    weights: F,
    rows: Seq<Seq<usize>>,
    src: usize,
    u: usize,
    x: usize,
    du: u64,
    wt: u64,
)
    requires
        has_path_weight(weights, rows, src, u, du),
        u < rows.len(),
        rows[u as int].contains(x),
        call_ensures(weights, (u, x), wt),
    ensures
        has_path_weight(weights, rows, src, x, sat_add(du, wt)),
{
    let (p, ws) = choose|p: Seq<usize>, ws: Seq<u64>|
        #![trigger path_weights_ok(weights, p, ws)]
        p.len() >= 1 && p[0] == src && p.last() == u && is_path(rows, p) && path_weights_ok(
            weights,
            p,
            ws,
        ) && du == sat_sum(ws);
    let p2 = p.push(x);
    let ws2 = ws.push(wt);
    assert(p2.last() == x);
    assert(p2[0] == src);
    assert forall|i: int|
        0 <= i < p2.len() - 1 implies (#[trigger] p2[i]) < rows.len() && rows[p2[i] as int].contains(
        p2[i + 1],
    ) by {
        if i < p.len() - 1 {
            assert(p2[i] == p[i] && p2[i + 1] == p[i + 1]);
        } else {
            assert(p2[i] == p.last() && p2[i + 1] == x);
        }
    }
    assert(is_path(rows, p2));
    assert forall|i: int|
        0 <= i < ws2.len() implies #[trigger] call_ensures(weights, (p2[i], p2[i + 1]), ws2[i]) by {
        if i < ws.len() {
            assert(call_ensures(weights, (p[i], p[i + 1]), ws[i]));
            assert(p2[i] == p[i] && ws2[i] == ws[i]);
            assert(p2[i + 1] == p[i + 1]);
        } else {
            assert(p2[i] == u && p2[i + 1] == x && ws2[i] == wt);
        }
    }
    assert(path_weights_ok(weights, p2, ws2));
    assert(ws2.drop_last() =~= ws);
    assert(sat_sum(ws2) == sat_add(du, wt));
}

/// The closure computes a function of the endpoints: any two values it
/// may return for one edge coincide.
pub open spec fn weights_deterministic<F: Fn(usize, usize) -> u64>(weights: F) -> bool {
    forall|x: usize, y: usize, w1: u64, w2: u64|
        #[trigger] call_ensures(weights, (x, y), w1) && #[trigger] call_ensures(weights, (x, y), w2)
            ==> w1 == w2
}

proof fn lemma_sat_add_mono(a1: u64, a2: u64, b: u64)
    requires
        a1 <= a2,
    ensures
        sat_add(a1, b) <= sat_add(a2, b),
{
}

proof fn lemma_dist_le_path_cost<F: Fn(usize, usize) -> u64>(
    weights: F,
    rows: Seq<Seq<usize>>,
    src: usize,
    a: Seq<u64>,
    p: Seq<usize>,
    ws: Seq<u64>,
)
    requires
        weights_deterministic(weights),
        a.len() == rows.len(),
        src < a.len(),
        a[src as int] == 0,
        forall|u: usize|
            u < a.len() && a[u as int] != u64::MAX ==> #[trigger] relaxed_from(weights, rows, a, u),
        p.len() >= 1,
        p[0] == src,
        p.last() < a.len(),
        is_path(rows, p),
        path_weights_ok(weights, p, ws),
    ensures
        a[p.last() as int] <= sat_sum(ws),
    decreases p.len(),
{
    if p.len() == 1 {
        assert(p.last() == src);
        assert(sat_sum(ws) == 0);
    } else {
        let q = p.drop_last();
        let wq = ws.drop_last();
        let u = q.last();
        let x = p.last();
        assert(p[p.len() - 2] == u);
        assert(u < rows.len() && rows[u as int].contains(x));
        assert(q[0] == src);
        assert forall|i: int|
            0 <= i < q.len() - 1 implies (#[trigger] q[i]) < rows.len() && rows[q[i] as int].contains(
            q[i + 1],
        ) by {
            assert(q[i] == p[i] && q[i + 1] == p[i + 1]);
        }
        assert(is_path(rows, q));
        assert forall|i: int|
            0 <= i < wq.len() implies #[trigger] call_ensures(weights, (q[i], q[i + 1]), wq[i]) by {
            assert(call_ensures(weights, (p[i], p[i + 1]), ws[i]));
            assert(q[i] == p[i] && q[i + 1] == p[i + 1] && wq[i] == ws[i]);
        }
        assert(path_weights_ok(weights, q, wq));
        lemma_dist_le_path_cost(weights, rows, src, a, q, wq);
        let wl = ws.last();
        assert(call_ensures(weights, (u, x), wl)) by {
            assert(call_ensures(weights, (p[ws.len() - 1], p[ws.len() as int]), ws[ws.len() - 1]));
        }
        assert(sat_sum(ws) == sat_add(sat_sum(wq), wl));
        if a[u as int] == u64::MAX {
            assert(sat_sum(wq) == u64::MAX);
            assert(sat_add(sat_sum(wq), wl) == u64::MAX);
        } else {
            assert(relaxed_from(weights, rows, a, u));
            let wt = choose|wt: u64|
                #[trigger] call_ensures(weights, (u, x), wt) && a[x as int] <= sat_add(
                    a[u as int],
                    wt,
                );
            assert(wt == wl);
            lemma_sat_add_mono(a[u as int], sat_sum(wq), wl);
        }
    }
}

/// Law: for a weight closure that computes a function of the edge, the
/// contract's clauses pin the distance table down — any two tables that
/// both satisfy them are equal.  So repeated runs over an unmodified
/// graph return identical results, and each finite entry is exactly the
/// least saturated path weight from the source.
pub proof fn lemma_dijkstra_dists_unique<F: Fn(usize, usize) -> u64>(
    weights: F,
    rows: Seq<Seq<usize>>,
    src: usize,
    a: Seq<u64>,
    b: Seq<u64>,
)
    requires
        weights_deterministic(weights),
        a.len() == rows.len(),
        b.len() == rows.len(),
        rows.len() <= usize::MAX,
        src < a.len(),
        a[src as int] == 0,
        b[src as int] == 0,
        forall|u: usize|
            u < a.len() && a[u as int] != u64::MAX ==> #[trigger] relaxed_from(weights, rows, a, u),
        forall|u: usize|
            u < b.len() && b[u as int] != u64::MAX ==> #[trigger] relaxed_from(weights, rows, b, u),
        forall|x: usize|
            x < a.len() && a[x as int] != u64::MAX ==> #[trigger] has_path_weight(
                weights,
                rows,
                src,
                x,
                a[x as int],
            ),
        forall|x: usize|
            x < b.len() && b[x as int] != u64::MAX ==> #[trigger] has_path_weight(
                weights,
                rows,
                src,
                x,
                b[x as int],
            ),
    ensures
        a == b,
{
    assert forall|i: int| 0 <= i < a.len() implies a[i] == b[i] by {
        let x = i as usize;
        assert(a[x as int] == a[i] && b[x as int] == b[i]);
        if b[x as int] != u64::MAX {
            assert(has_path_weight(weights, rows, src, x, b[x as int]));
            let (p, ws) = choose|p: Seq<usize>, ws: Seq<u64>|
                #![trigger path_weights_ok(weights, p, ws)]
                p.len() >= 1 && p[0] == src && p.last() == x && is_path(rows, p)
                    && path_weights_ok(weights, p, ws) && b[x as int] == sat_sum(ws);
            lemma_dist_le_path_cost(weights, rows, src, a, p, ws);
            assert(a[x as int] <= b[x as int]);
        }
        if a[x as int] != u64::MAX {
            assert(has_path_weight(weights, rows, src, x, a[x as int]));
            let (p, ws) = choose|p: Seq<usize>, ws: Seq<u64>|
                #![trigger path_weights_ok(weights, p, ws)]
                p.len() >= 1 && p[0] == src && p.last() == x && is_path(rows, p)
                    && path_weights_ok(weights, p, ws) && a[x as int] == sat_sum(ws);
            lemma_dist_le_path_cost(weights, rows, src, b, p, ws);
            assert(b[x as int] <= a[x as int]);
        }
    }
    assert(a =~= b);
}

proof fn lemma_dists_le_levels<F: Fn(usize, usize) -> u64>(
    weights: F,
    rows: Seq<Seq<usize>>,
    src: usize,
    lv: Seq<usize>,
    ds: Seq<u64>,
    x: usize,
)
    requires
        lv.len() == rows.len(),
        ds.len() == rows.len(),
        src < lv.len(),
        lv[src as int] == 0,
        ds[src as int] == 0,
        forall|y: usize|
            y < lv.len() && lv[y as int] != usize::MAX && y != src ==> #[trigger] bfs_has_parent(
                rows,
                lv,
                y,
            ),
        forall|u: usize|
            u < ds.len() && ds[u as int] != u64::MAX ==> #[trigger] relaxed_from(
                weights,
                rows,
                ds,
                u,
            ),
        forall|a: usize, b: usize, w: u64| #[trigger] call_ensures(weights, (a, b), w) ==> w == 1,
        x < lv.len(),
        lv[x as int] != usize::MAX,
    ensures
        ds[x as int] != u64::MAX,
        ds[x as int] <= lv[x as int] as u64,
    decreases lv[x as int],
{
    if x != src {
        assert(bfs_has_parent(rows, lv, x));
        let u = choose|u: usize| bfs_parent(rows, lv, u, x);
        lemma_dists_le_levels(weights, rows, src, lv, ds, u);
        assert(relaxed_from(weights, rows, ds, u));
        assert(rows[u as int].contains(x));
        let wt = choose|wt: u64|
            #[trigger] call_ensures(weights, (u, x), wt) && ds[x as int] <= sat_add(
                ds[u as int],
                wt,
            );
        assert(wt == 1);
        assert(lv[u as int] < usize::MAX);
        assert(ds[u as int] <= lv[u as int] as u64);
        assert(sat_add(ds[u as int], 1) <= lv[x as int] as u64);
    }
}

proof fn lemma_level_le_path(rows: Seq<Seq<usize>>, lv: Seq<usize>, src: usize, p: Seq<usize>)
    requires
        lv.len() == rows.len(),
        src < lv.len(),
        lv[src as int] == 0,
        forall|u: usize|
            u < lv.len() && lv[u as int] != usize::MAX ==> #[trigger] bfs_settled(
                rows,
                lv,
                u as int,
            ),
        p.len() >= 1,
        p[0] == src,
        p.last() < lv.len(),
        is_path(rows, p),
    ensures
        lv[p.last() as int] != usize::MAX,
        lv[p.last() as int] <= p.len() - 1,
    decreases p.len(),
{
    if p.len() > 1 {
        let q = p.drop_last();
        let u = q.last();
        assert(p[p.len() - 2] == u);
        assert(u < rows.len() && rows[u as int].contains(p.last()));
        assert forall|i: int|
            0 <= i < q.len() - 1 implies (#[trigger] q[i]) < rows.len() && rows[q[i] as int].contains(
            q[i + 1],
        ) by {
            assert(q[i] == p[i] && q[i + 1] == p[i + 1]);
        }
        assert(is_path(rows, q));
        lemma_level_le_path(rows, lv, src, q);
        assert(bfs_settled(rows, lv, u as int));
    }
}

proof fn lemma_ones_sum(ws: Seq<u64>)
    requires
        forall|i: int| 0 <= i < ws.len() ==> (#[trigger] ws[i]) == 1,
        sat_sum(ws) != u64::MAX,
    ensures
        sat_sum(ws) == ws.len(),
    decreases ws.len(),
{
    if ws.len() > 0 {
        let wq = ws.drop_last();
        assert(sat_sum(ws) == sat_add(sat_sum(wq), ws.last()));
        assert(ws.last() == 1);
        assert(sat_sum(wq) != u64::MAX) by {
            if sat_sum(wq) == u64::MAX {
                assert(sat_add(sat_sum(wq), 1) == u64::MAX);
            }
        }
        assert forall|i: int| 0 <= i < wq.len() implies (#[trigger] wq[i]) == 1 by {
            assert(wq[i] == ws[i]);
        }
        lemma_ones_sum(wq);
    }
}

/// Law: under the constant weight function returning 1, the weighted
/// distances agree numerically with the hop levels — a table meeting
/// the weighted contract's clauses and a level table meeting the
/// traversal's clauses mark the same vertices, with equal values on
/// every reached one.
pub proof fn lemma_unit_weights_match_bfs<F: Fn(usize, usize) -> u64>(
    weights: F,
    rows: Seq<Seq<usize>>,
    src: usize,
    lv: Seq<usize>,
    ds: Seq<u64>,
)
    requires
        lv.len() == rows.len(),
        ds.len() == rows.len(),
        src < lv.len(),
        lv[src as int] == 0,
        ds[src as int] == 0,
        forall|y: usize|
            y < lv.len() && lv[y as int] != usize::MAX && y != src ==> #[trigger] bfs_has_parent(
                rows,
                lv,
                y,
            ),
        forall|u: usize|
            u < lv.len() && lv[u as int] != usize::MAX ==> #[trigger] bfs_settled(
                rows,
                lv,
                u as int,
            ),
        forall|u: usize|
            u < ds.len() && ds[u as int] != u64::MAX ==> #[trigger] relaxed_from(
                weights,
                rows,
                ds,
                u,
            ),
        forall|x: usize|
            x < ds.len() && ds[x as int] != u64::MAX ==> #[trigger] has_path_weight(
                weights,
                rows,
                src,
                x,
                ds[x as int],
            ),
        forall|a: usize, b: usize, w: u64| #[trigger] call_ensures(weights, (a, b), w) ==> w == 1,
    ensures
        forall|x: usize|
            x < lv.len() ==> ((lv[x as int] != usize::MAX) <==> (ds[x as int] != u64::MAX)),
        forall|x: usize|
            x < lv.len() && lv[x as int] != usize::MAX ==> ds[x as int] == lv[x as int] as u64,
{
    assert forall|x: usize| x < lv.len() && lv[x as int] != usize::MAX implies ds[x as int]
        != u64::MAX && ds[x as int] <= lv[x as int] as u64 by {
        lemma_dists_le_levels(weights, rows, src, lv, ds, x);
    }
    assert forall|x: usize| x < lv.len() && ds[x as int] != u64::MAX implies lv[x as int]
        != usize::MAX && (lv[x as int] as u64) <= ds[x as int] by {
        assert(has_path_weight(weights, rows, src, x, ds[x as int]));
        let (p, ws) = choose|p: Seq<usize>, ws: Seq<u64>|
            #![trigger path_weights_ok(weights, p, ws)]
            p.len() >= 1 && p[0] == src && p.last() == x && is_path(rows, p) && path_weights_ok(
                weights,
                p,
                ws,
            ) && ds[x as int] == sat_sum(ws);
        assert forall|i: int| 0 <= i < ws.len() implies (#[trigger] ws[i]) == 1 by {
            assert(call_ensures(weights, (p[i], p[i + 1]), ws[i]));
        }
        lemma_ones_sum(ws);
        lemma_level_le_path(rows, lv, src, p);
    }
}

/// Lowering recorded distances (while keeping `u`'s) preserves the
/// relaxation bound of `u`'s successors.
proof fn lemma_relaxed_preserved<F: Fn(usize, usize) -> u64>(
    weights: F,
    rows: Seq<Seq<usize>>,
    d0: Seq<u64>,
    d1: Seq<u64>,
    u: usize,
)
    requires
        relaxed_from(weights, rows, d0, u),
        rows_wf(rows),
        u < rows.len(),
        d0.len() == rows.len(),
        d1.len() == d0.len(),
        d1[u as int] == d0[u as int],
        forall|x: int| 0 <= x < d1.len() ==> (#[trigger] d1[x]) <= d0[x],
    ensures
        relaxed_from(weights, rows, d1, u),
{
    assert forall|x: usize| #[trigger] rows[u as int].contains(x) implies exists|wt: u64|
        #[trigger] call_ensures(weights, (u, x), wt) && d1[x as int] <= sat_add(
        d1[u as int],
        wt,
    ) by {
        let wt = choose|wt: u64|
            #[trigger] call_ensures(weights, (u, x), wt) && d0[x as int] <= sat_add(
                d0[u as int],
                wt,
            );
        let t = choose|t: int| 0 <= t < rows[u as int].len() && rows[u as int][t] == x;
        assert(rows[u as int][t] < rows.len());
        assert(d1[x as int] <= d0[x as int]);
        assert(call_ensures(weights, (u, x), wt) && d1[x as int] <= sat_add(d1[u as int], wt));
    }
}

/// Single-source weighted shortest-path distances.
///
/// The weight of edge `(u, w)` is supplied by the caller as a function of
/// the endpoints and must be callable on every edge's endpoint pair.
/// Distances are accumulated with saturating addition: the distance
/// type's maximum value stands for "+infinity" and absorbs any further
/// weight, so unreached vertices keep it as sentinel.
///
/// A vertex is marked visited when it is first inserted into the queue,
/// not when it is popped; a later, cheaper path to an already-queued
/// vertex lowers its recorded distance and queue priority in place.
#[verifier::rlimit(100)]
pub fn dijkstra<G: Graph, F: Fn(usize, usize) -> u64>(g: &G, v: usize, weights: F) -> (r: Result<
    Vec<u64>,
    GraphError,
>)
    requires
        g.wf(),
        forall|a: usize, b: usize|
            a < g.out_rows().len() && (#[trigger] g.out_rows()[a as int].contains(b))
                ==> call_requires(weights, (a, b)),
    ensures
        match r {
            Ok(dists) => {
                &&& v < g.out_rows().len()
                &&& dists@.len() == g.out_rows().len()
                &&& dists@[v as int] == 0
                &&& forall|u: usize|
                    u < dists@.len() && dists@[u as int] != u64::MAX ==> #[trigger] relaxed_from(
                        weights,
                        g.out_rows(),
                        dists@,
                        u,
                    )
                &&& forall|x: usize|
                    x < dists@.len() && dists@[x as int] != u64::MAX ==> #[trigger] has_path_weight(
                        weights,
                        g.out_rows(),
                        v,
                        x,
                        dists@[x as int],
                    )
                &&& forall|x: usize|
                    x < dists@.len() && dists@[x as int] != u64::MAX ==> reachable(
                        g.out_rows(),
                        v,
                        x,
                    )
            },
            Err(e) => v >= g.out_rows().len() && e == GraphError::OutOfRange,
        },
{
    let n = g.nv();
    if v >= n {
        return Err(GraphError::OutOfRange);
    }
    proof {
        g.lemma_wf();
    }
    let ghost rows = g.out_rows();
    let mut visited = BitSet::repeat(false, n);
    let mut pq = MinQueue::with_capacity(0);
    let mut dists: Vec<u64> = Vec::new();
    let mut parents: Vec<usize> = Vec::new();
    for k in 0..n
        invariant
            dists@.len() == k,
            forall|t: int| 0 <= t < k ==> dists@[t] == u64::MAX,
    {
        dists.push(u64::MAX);
    }
    for k in 0..n
        invariant
            parents@.len() == k,
    {
        parents.push(usize::MAX);
    }
    dists[v] = 0;
    visited.set(v, true);
    pq.push(v, 0);
    let ghost mut frontier_lo: u64 = 0;
    proof {
        lemma_count_trues_all_false(n as nat);
        lemma_count_trues_update(Seq::new(n as nat, |i: int| false), v as int, true);
        assert(queue_view(pq).dom() =~= Set::<usize>::empty().insert(v));
        assert(reach_within(rows, v, v, 0));
        lemma_path_trivial(weights, rows, v);
    }
    while !pq.is_empty()
        invariant
            g.wf(),
            rows == g.out_rows(),
            rows.len() == n,
            rows_wf(rows),
            forall|a: usize, b: usize|
                a < n && (#[trigger] rows[a as int].contains(b)) ==> call_requires(weights, (a, b)),
            v < n,
            dists@.len() == n,
            parents@.len() == n,
            bitset_view(visited).len() == n,
            dists@[v as int] == 0,
            bitset_view(visited)[v as int],
            queue_view(pq).dom().finite(),
            forall|u: usize|
                #[trigger] queue_view(pq).dom().contains(u) ==> u < n && bitset_view(visited)[
                    u as int
                ],
            forall|x: int| 0 <= x < n && dists@[x] != u64::MAX ==> bitset_view(visited)[x],
            forall|x: usize|
                x < n && (#[trigger] bitset_view(visited)[x as int]) ==> reachable(rows, v, x),
            // the queue tracks the recorded distances
            forall|x: usize|
                #[trigger] queue_view(pq).dom().contains(x) ==> queue_view(pq)[x] == dists@[
                    x as int
                ],
            // settled vertices sit at or below the frontier, the queue at or above
            forall|p: usize|
                p < n && (#[trigger] bitset_view(visited)[p as int]) && !queue_view(
                    pq,
                ).dom().contains(p) ==> dists@[p as int] <= frontier_lo,
            forall|q: usize|
                #[trigger] queue_view(pq).dom().contains(q) ==> frontier_lo <= queue_view(pq)[q],
            // settled vertices have offered all their edges a relaxation
            forall|p: usize|
                p < n && bitset_view(visited)[p as int] && !queue_view(pq).dom().contains(p)
                    ==> #[trigger] relaxed_from(weights, rows, dists@, p),
            // every finite distance is the saturated weight of a real path
            forall|x: usize|
                x < n && dists@[x as int] != u64::MAX ==> #[trigger] has_path_weight(
                    weights,
                    rows,
                    v,
                    x,
                    dists@[x as int],
                ),
            0 <= count_trues(bitset_view(visited)),
            count_trues(bitset_view(visited)) <= n,
        decreases n - count_trues(bitset_view(visited)) + queue_view(pq).dom().len(),
    {
        let ghost m0 = n - count_trues(bitset_view(visited)) + queue_view(pq).dom().len();
        let ghost q_pre = queue_view(pq);
        let popped = pq.pop().unwrap();
        let u = popped.0;
        proof {
            frontier_lo = popped.1;
        }
        let d = dists[u];
        proof {
            assert(popped.1 == q_pre[u]);
            assert(q_pre[u] == dists@[u as int]);
            assert(frontier_lo == d);
        }
        let row = g.out_neighbors(u).unwrap();
        let row_n = row.len();
        let mut j: usize = 0;
        while j < row_n
            invariant
                g.wf(),
                rows == g.out_rows(),
                rows.len() == n,
                rows_wf(rows),
                forall|a: usize, b: usize|
                    a < n && (#[trigger] rows[a as int].contains(b)) ==> call_requires(
                        weights,
                        (a, b),
                    ),
                v < n,
                u < n,
                dists@.len() == n,
                parents@.len() == n,
                bitset_view(visited).len() == n,
                dists@[v as int] == 0,
                bitset_view(visited)[v as int],
                bitset_view(visited)[u as int],
                queue_view(pq).dom().finite(),
                !queue_view(pq).dom().contains(u),
                forall|w: usize|
                    #[trigger] queue_view(pq).dom().contains(w) ==> w < n && bitset_view(visited)[
                        w as int
                    ],
                forall|x: int| 0 <= x < n && dists@[x] != u64::MAX ==> bitset_view(visited)[x],
                forall|x: usize|
                    x < n && (#[trigger] bitset_view(visited)[x as int]) ==> reachable(rows, v, x),
                reachable(rows, v, u),
                forall|x: usize|
                    #[trigger] queue_view(pq).dom().contains(x) ==> queue_view(pq)[x] == dists@[
                        x as int
                    ],
                frontier_lo == d,
                dists@[u as int] == d,
                forall|p: usize|
                    p < n && (#[trigger] bitset_view(visited)[p as int]) && !queue_view(
                        pq,
                    ).dom().contains(p) ==> dists@[p as int] <= frontier_lo,
                forall|q: usize|
                    #[trigger] queue_view(pq).dom().contains(q) ==> frontier_lo <= queue_view(pq)[
                        q
                    ],
                forall|p: usize|
                    p < n && bitset_view(visited)[p as int] && !queue_view(pq).dom().contains(p)
                        && p != u ==> #[trigger] relaxed_from(weights, rows, dists@, p),
                forall|x: usize|
                    x < n && dists@[x as int] != u64::MAX ==> #[trigger] has_path_weight(
                        weights,
                        rows,
                        v,
                        x,
                        dists@[x as int],
                    ),
                row@ == rows[u as int],
                row_n == row@.len(),
                0 <= j <= row_n,
                // the prefix of the row already offered a relaxation
                forall|t: int| 0 <= t < j ==> #[trigger] offered(weights, u, row@[t], dists@, d),
                0 <= count_trues(bitset_view(visited)),
                count_trues(bitset_view(visited)) <= n,
                n - count_trues(bitset_view(visited)) + queue_view(pq).dom().len() == m0 - 1,
            decreases row_n - j,
        {
            let w = row[j];
            proof {
                assert(rows[u as int][j as int] == w);
                assert(rows[u as int].contains(w));
                assert(w < n);
            }
            let wt = weights(u, w);
            let alt = if d > u64::MAX - wt {
                u64::MAX
            } else {
                d + wt
            };
            proof {
                assert(alt == sat_add(d, wt));
                assert(d <= alt);
                assert(alt != u64::MAX ==> d != u64::MAX) by {
                    if d == u64::MAX {
                        assert(sat_add(d, wt) == u64::MAX);
                    }
                }
            }
            if !visited.get(w) {
                let ghost vis0 = bitset_view(visited);
                let ghost q0 = queue_view(pq);
                let ghost d0 = dists@;
                visited.set(w, true);
                dists[w] = alt;
                parents[w] = u;
                pq.push(w, alt);
                proof {
                    lemma_count_trues_update(vis0, w as int, true);
                    lemma_count_trues_bounds(bitset_view(visited));
                    assert(!q0.dom().contains(w));
                    assert(queue_view(pq).dom() =~= q0.dom().insert(w));
                    let k = choose|k: nat| reach_within(rows, v, u, k);
                    assert(reach_within(rows, v, w, k + 1));
                    assert(dists@ == d0.update(w as int, alt));
                    // a fresh vertex was outside the queue and unvisited
                    assert forall|p: usize|
                        p < n && bitset_view(visited)[p as int] && !queue_view(
                        pq,
                    ).dom().contains(p) && p != u implies #[trigger] relaxed_from(
                        weights,
                        rows,
                        dists@,
                        p,
                    ) by {
                        assert(vis0[p as int]);
                        assert(!q0.dom().contains(p));
                        assert(relaxed_from(weights, rows, d0, p));
                        lemma_relaxed_preserved(weights, rows, d0, dists@, p);
                    }
                    assert forall|x: usize|
                        x < n && dists@[x as int] != u64::MAX implies #[trigger] has_path_weight(
                        weights,
                        rows,
                        v,
                        x,
                        dists@[x as int],
                    ) by {
                        if x == w {
                            assert(d != u64::MAX);
                            assert(has_path_weight(weights, rows, v, u, d));
                            lemma_path_extend(weights, rows, v, u, w, d, wt);
                        } else {
                            assert(dists@[x as int] == d0[x as int]);
                        }
                    }
                    assert forall|t: int| 0 <= t < j implies #[trigger] offered(
                        weights,
                        u,
                        row@[t],
                        dists@,
                        d,
                    ) by {
                        assert(offered(weights, u, row@[t], d0, d));
                        let wt2 = choose|wt2: u64|
                            #[trigger] call_ensures(weights, (u, row@[t]), wt2) && d0[row@[t] as int]
                                <= sat_add(d, wt2);
                        assert(dists@[row@[t] as int] <= d0[row@[t] as int]);
                        assert(call_ensures(weights, (u, row@[t]), wt2) && dists@[row@[t] as int]
                            <= sat_add(d, wt2));
                    }
                }
            } else if alt < dists[w] {
                let ghost q0 = queue_view(pq);
                let ghost d0 = dists@;
                proof {
                    // a settled vertex already sits at or below the
                    // frontier, so only a queued one can be undercut
                    assert(q0.dom().contains(w)) by {
                        if !q0.dom().contains(w) {
                            assert(d0[w as int] <= frontier_lo);
                        }
                    }
                }
                dists[w] = alt;
                parents[w] = u;
                pq.change_priority(w, alt);
                proof {
                    assert(queue_view(pq) == q0.insert(w, alt));
                    assert(queue_view(pq).dom() =~= q0.dom());
                    assert(dists@ == d0.update(w as int, alt));
                    assert forall|p: usize|
                        p < n && bitset_view(visited)[p as int] && !queue_view(
                        pq,
                    ).dom().contains(p) && p != u implies #[trigger] relaxed_from(
                        weights,
                        rows,
                        dists@,
                        p,
                    ) by {
                        assert(relaxed_from(weights, rows, d0, p));
                        lemma_relaxed_preserved(weights, rows, d0, dists@, p);
                    }
                    assert forall|x: usize|
                        x < n && dists@[x as int] != u64::MAX implies #[trigger] has_path_weight(
                        weights,
                        rows,
                        v,
                        x,
                        dists@[x as int],
                    ) by {
                        if x == w {
                            assert(d != u64::MAX);
                            assert(has_path_weight(weights, rows, v, u, d));
                            lemma_path_extend(weights, rows, v, u, w, d, wt);
                        } else {
                            assert(dists@[x as int] == d0[x as int]);
                        }
                    }
                    assert forall|t: int| 0 <= t < j implies #[trigger] offered(
                        weights,
                        u,
                        row@[t],
                        dists@,
                        d,
                    ) by {
                        assert(offered(weights, u, row@[t], d0, d));
                        let wt2 = choose|wt2: u64|
                            #[trigger] call_ensures(weights, (u, row@[t]), wt2) && d0[row@[t] as int]
                                <= sat_add(d, wt2);
                        assert(dists@[row@[t] as int] <= d0[row@[t] as int]);
                        assert(call_ensures(weights, (u, row@[t]), wt2) && dists@[row@[t] as int]
                            <= sat_add(d, wt2));
                    }
                }
            }
            proof {
                assert(row@[j as int] == w);
                assert(call_ensures(weights, (u, w), wt));
                assert(dists@[w as int] <= sat_add(d, wt));
                assert(offered(weights, u, w, dists@, d));
            }
            j = j + 1;
        }
        proof {
            // the whole row of `u` has been offered a relaxation
            assert forall|x: usize| #[trigger] rows[u as int].contains(x) implies exists|wt: u64|
                #[trigger] call_ensures(weights, (u, x), wt) && dists@[x as int] <= sat_add(
                dists@[u as int],
                wt,
            ) by {
                let t = choose|t: int| 0 <= t < rows[u as int].len() && rows[u as int][t] == x;
                assert(row@[t] == x);
                assert(offered(weights, u, x, dists@, d));
                let wt = choose|wt: u64|
                    #[trigger] call_ensures(weights, (u, x), wt) && dists@[x as int] <= sat_add(
                        d,
                        wt,
                    );
                assert(call_ensures(weights, (u, x), wt) && dists@[x as int] <= sat_add(
                    dists@[u as int],
                    wt,
                ));
            }
            assert(relaxed_from(weights, rows, dists@, u));
        }
    }
    proof {
        assert forall|u: usize|
            u < n && dists@[u as int] != u64::MAX implies #[trigger] relaxed_from(
            weights,
            rows,
            dists@,
            u,
        ) by {
            assert(bitset_view(visited)[u as int]);
            assert(!queue_view(pq).dom().contains(u));
        }
    }
    parents[v] = usize::MAX;
    Ok(dists)
}

} // verus!
