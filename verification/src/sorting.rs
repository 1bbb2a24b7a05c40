//! In-place sorting of vertex sequences.

use vstd::prelude::*;

verus! {

/// A sequence in ascending (non-strict) order.
pub open spec fn sorted_ascending(s: Seq<usize>) -> bool {
    forall|p: int, q: int| 0 <= p < q < s.len() ==> s[p] <= s[q]
}

/// Swapping two positions of a sequence keeps its members.
proof fn lemma_swap_contains(s: Seq<usize>, i: int, j: int)
    requires
        0 <= i < s.len(),
        0 <= j < s.len(),
        i != j,
    ensures
        forall|x: usize|
            #[trigger] s.update(i, s[j]).update(j, s[i]).contains(x) <==> s.contains(x),
{
    let t = s.update(i, s[j]).update(j, s[i]);
    assert forall|x: usize| #[trigger] t.contains(x) implies s.contains(x) by {
        let p = choose|p: int| 0 <= p < t.len() && t[p] == x;
        if p == i {
            assert(s[j] == x);
        } else if p == j {
            assert(s[i] == x);
        } else {
            assert(s[p] == x);
        }
    }
    assert forall|x: usize| s.contains(x) implies #[trigger] t.contains(x) by {
        let p = choose|p: int| 0 <= p < s.len() && s[p] == x;
        if p == i {
            assert(t[j] == x);
        } else if p == j {
            assert(t[i] == x);
        } else {
            assert(t[p] == x);
        }
    }
}

/// Exchanging two positions of a sequence keeps its multiset.
proof fn lemma_swap_multiset(s: Seq<usize>, i: int, j: int)
    requires
        0 <= i < s.len(),
        0 <= j < s.len(),
        i != j,
    ensures
        s.update(i, s[j]).update(j, s[i]).to_multiset() == s.to_multiset(),
{
    broadcast use vstd::seq_lib::to_multiset_update;
    broadcast use vstd::seq_lib::group_to_multiset_ensures;

    let s1 = s.update(i, s[j]);
    assert(s1[j] == s[j]);
    assert(s1.to_multiset() == s.to_multiset().insert(s[j]).remove(s[i]));
    assert(s1.update(j, s[i]).to_multiset() == s1.to_multiset().insert(s[i]).remove(s1[j]));
    assert(s.contains(s[i]));
    assert(s.contains(s[j]));
    assert(s.to_multiset().count(s[i]) > 0);
    assert(s.to_multiset().count(s[j]) > 0);
    assert(s1.update(j, s[i]).to_multiset() =~= s.to_multiset());
}

/// In-place ascending insertion sort over vertex ids.
pub fn sort_ascending(v: &mut Vec<usize>)
    ensures
        sorted_ascending(final(v)@),
        final(v)@.len() == old(v)@.len(),
        final(v)@.to_multiset() == old(v)@.to_multiset(),
        forall|x: usize| final(v)@.contains(x) <==> old(v)@.contains(x),
{
    let ghost orig = v@;
    let n = v.len();
    if n == 0 {
        return ;
    }
    let mut i: usize = 1;
    while i < n
        invariant
            1 <= i <= n,
            n == v@.len(),
            forall|p: int, q: int| 0 <= p < q < i ==> v@[p] <= v@[q],
            v@.to_multiset() == orig.to_multiset(),
            forall|x: usize| v@.contains(x) <==> orig.contains(x),
        decreases n - i,
    {
        let mut j: usize = i;
        while j > 0 && v[j - 1] > v[j]
            invariant
                0 <= j <= i < n,
                n == v@.len(),
                forall|p: int, q: int| 0 <= p < q <= i && q != j ==> v@[p] <= v@[q],
                v@.to_multiset() == orig.to_multiset(),
                forall|x: usize| v@.contains(x) <==> orig.contains(x),
            decreases j,
        {
            let ghost before = v@;
            let a = v[j - 1];
            let b = v[j];
            v[j - 1] = b;
            v[j] = a;
            proof {
                assert(v@ == before.update(j - 1, before[j as int]).update(
                    j as int,
                    before[j - 1],
                ));
                lemma_swap_contains(before, j - 1, j as int);
                lemma_swap_multiset(before, j - 1, j as int);
            }
            j = j - 1;
        }
        i = i + 1;
    }
}

} // verus!
