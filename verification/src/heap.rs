//! The open set as a binary heap of search nodes: the node at the root is
//! taken first, and no node is taken before its parent.

use vstd::prelude::*;
use crate::search::{expanded_before, precedes, AStarNode};

verus! {

/// The index of the parent of the entry at `i > 0`.
pub open spec fn parent_of(i: int) -> int {
    (i - 1) / 2
}

/// No entry of `s` is taken before its parent.
pub open spec fn is_heap(s: Seq<AStarNode>) -> bool {
    forall|i: int| 0 < i < s.len() ==> !precedes(#[trigger] s[i], s[parent_of(i)])
}

/// Every pair but the one of `k` and its parent is in heap order, and the
/// children of `k` are not taken before the parent of `k`.
spec fn heap_above(s: Seq<AStarNode>, k: int) -> bool {
    &&& forall|i: int| 0 < i < s.len() && i != k ==> !precedes(#[trigger] s[i], s[parent_of(i)])
    &&& forall|i: int|
        0 < i < s.len() && parent_of(i) == k && k > 0 ==> !precedes(#[trigger] s[i], s[parent_of(k)])
}

/// Every pair but those of `k` and its children is in heap order, and the
/// children of `k` are not taken before the parent of `k`.
spec fn heap_below(s: Seq<AStarNode>, k: int) -> bool {
    &&& forall|i: int|
        0 < i < s.len() && parent_of(i) != k ==> !precedes(#[trigger] s[i], s[parent_of(i)])
    &&& forall|i: int|
        0 < i < s.len() && parent_of(i) == k && k > 0 ==> !precedes(#[trigger] s[i], s[parent_of(k)])
}

/// `s` with the entries at `i` and `j` exchanged.
spec fn swap(s: Seq<AStarNode>, i: int, j: int) -> Seq<AStarNode> {
    s.update(i, s[j]).update(j, s[i])
}

/// Exchanging two entries keeps the entries.
proof fn lemma_swap_multiset(s: Seq<AStarNode>, i: int, j: int)
    requires
        0 <= i < s.len(),
        0 <= j < s.len(),
    ensures
        swap(s, i, j).to_multiset() == s.to_multiset(),
        swap(s, i, j).len() == s.len(),
{
    broadcast use vstd::seq_lib::group_to_multiset_ensures, vstd::multiset::group_multiset_axioms;

    let t = s.update(i, s[j]);
    assert(t.to_multiset() == s.to_multiset().insert(s[j]).remove(s[i]));
    assert(t[j] == s[j]);
    assert(swap(s, i, j).to_multiset() == t.to_multiset().insert(s[i]).remove(s[j]));
    assert(swap(s, i, j).to_multiset() =~= s.to_multiset());
}

/// The root of a heap is taken no later than any entry.
pub proof fn lemma_root_first(s: Seq<AStarNode>)
    requires
        is_heap(s),
        s.len() > 0,
    ensures
        forall|k: int| 0 <= k < s.len() ==> !precedes(#[trigger] s[k], s[0]),
{
    assert forall|k: int| 0 <= k < s.len() implies !precedes(#[trigger] s[k], s[0]) by {
        lemma_root_first_at(s, k);
    }
}

/// The entry at `k` is not taken before the root: induction up the parents.
proof fn lemma_root_first_at(s: Seq<AStarNode>, k: int)
    requires
        is_heap(s),
        0 <= k < s.len(),
    ensures
        !precedes(s[k], s[0]),
    decreases k,
{
    if k > 0 {
        lemma_root_first_at(s, parent_of(k));
        assert(!precedes(s[k], s[parent_of(k)]));
    }
}

/// Exchanging a node that precedes its parent with that parent moves the
/// one pair out of order up to the parent.
proof fn lemma_sift_up_step(s: Seq<AStarNode>, k: int)
    requires
        heap_above(s, k),
        0 < k < s.len(),
        precedes(s[k], s[parent_of(k)]),
    ensures
        heap_above(swap(s, k, parent_of(k)), parent_of(k)),
{
    let p = parent_of(k);
    let t = swap(s, k, p);
    assert forall|i: int| 0 < i < t.len() && i != p implies !precedes(#[trigger] t[i], t[parent_of(i)]) by {
        if i == k {
        } else if parent_of(i) == k {
            assert(t[i] == s[i]);
        } else if parent_of(i) == p {
            assert(t[i] == s[i]);
            assert(!precedes(s[i], s[p]));
        } else {
            assert(t[i] == s[i]);
            if i == parent_of(p) {
            }
        }
    }
    assert forall|i: int|
        0 < i < t.len() && parent_of(i) == p && p > 0 implies !precedes(#[trigger] t[i], t[parent_of(p)]) by {
        assert(!precedes(s[p], s[parent_of(p)]));
        if i != k {
            assert(t[i] == s[i]);
            assert(!precedes(s[i], s[p]));
        }
    }
}

/// Exchanging a node with the child that comes out first, when that child
/// precedes it, moves the pairs out of order down to that child.
proof fn lemma_sift_down_step(s: Seq<AStarNode>, k: int, m: int)
    requires
        heap_below(s, k),
        0 <= k < m < s.len(),
        parent_of(m) == k,
        forall|c: int| 0 < c < s.len() && parent_of(c) == k ==> !precedes(#[trigger] s[c], s[m]),
        precedes(s[m], s[k]),
    ensures
        heap_below(swap(s, k, m), m),
{
    let t = swap(s, k, m);
    assert forall|i: int| 0 < i < t.len() && parent_of(i) != m implies !precedes(#[trigger] t[i], t[parent_of(i)]) by {
        if i == m {
        } else if i == k {
            assert(!precedes(s[m], s[parent_of(k)]));
        } else if parent_of(i) == k {
            assert(t[i] == s[i]);
            assert(!precedes(s[i], s[m]));
        } else {
            assert(t[i] == s[i]);
        }
    }
    assert forall|i: int|
        0 < i < t.len() && parent_of(i) == m && m > 0 implies !precedes(#[trigger] t[i], t[parent_of(m)]) by {
        assert(t[i] == s[i]);
        assert(!precedes(s[i], s[m]));
    }
}

/// Adds `n` to the heap `v`.
pub fn heap_push(v: &mut Vec<AStarNode>, n: AStarNode)
    requires
        is_heap(old(v)@),
    ensures
        is_heap(final(v)@),
        final(v)@.to_multiset() == old(v)@.push(n).to_multiset(),
        final(v)@.len() == old(v)@.len() + 1,
{
    v.push(n);
    let mut k: usize = v.len() - 1;
    assert(heap_above(v@, k as int)) by {
        assert forall|i: int| 0 < i < v@.len() && i != k implies !precedes(#[trigger] v@[i], v@[parent_of(i)]) by {
            assert(v@[i] == old(v)@[i]);
        }
    }
    loop
        invariant
            0 <= k < v@.len(),
            v@.len() == old(v)@.len() + 1,
            v@.to_multiset() == old(v)@.push(n).to_multiset(),
            heap_above(v@, k as int),
        decreases k,
    {
        if k == 0 {
            return;
        }
        let p = (k - 1) / 2;
        if expanded_before(&v[k], &v[p]) {
            proof {
                lemma_sift_up_step(v@, k as int);
                lemma_swap_multiset(v@, k as int, p as int);
            }
            let a = v[k];
            let b = v[p];
            v.set(k, b);
            v.set(p, a);
            k = p;
        } else {
            return;
        }
    }
}

/// Takes the root out of the non-empty heap `v`.
pub fn heap_pop(v: &mut Vec<AStarNode>) -> (root: AStarNode)
    requires
        is_heap(old(v)@),
        old(v)@.len() > 0,
    ensures
        root == old(v)@[0],
        is_heap(final(v)@),
        final(v)@.to_multiset() == old(v)@.remove(0).to_multiset(),
        final(v)@.len() == old(v)@.len() - 1,
{
    broadcast use vstd::seq_lib::group_to_multiset_ensures, vstd::multiset::group_multiset_axioms;

    let ghost s0 = v@;
    let last = match v.pop() {
        Some(x) => x,
        None => {
            assert(false);
            return v[0];
        },
    };
    assert(s0.remove(s0.len() - 1) =~= v@);
    if v.len() == 0 {
        assert(s0.remove(0) =~= v@);
        return last;
    }
    let root = v[0];
    v.set(0, last);
    assert(s0.remove(0).to_multiset() =~= v@.to_multiset());
    let mut k: usize = 0;
    assert(heap_below(v@, 0)) by {
        assert forall|i: int| 0 < i < v@.len() && parent_of(i) != 0 implies !precedes(#[trigger] v@[i], v@[parent_of(i)]) by {
            assert(v@[i] == s0[i]);
            assert(v@[parent_of(i)] == s0[parent_of(i)]);
        }
    }
    loop
        invariant
            0 <= k < v@.len(),
            v@.len() == s0.len() - 1,
            v@.to_multiset() == s0.remove(0).to_multiset(),
            heap_below(v@, k as int),
            root == s0[0],
            s0 == old(v)@,
        decreases v@.len() - k,
    {
        let n = v.len();
        let room = n - 1 - k;
        if room < k + 1 {
            assert(is_heap(v@)) by {
                assert forall|i: int| 0 < i < v@.len() implies !precedes(#[trigger] v@[i], v@[parent_of(i)]) by {
                    assert(parent_of(i) != k);
                }
            }
            return root;
        }
        let l = 2 * k + 1;
        let mut m = l;
        if room >= k + 2 {
            let r = l + 1;
            if expanded_before(&v[r], &v[l]) {
                m = r;
            }
        }
        assert forall|c: int| 0 < c < v@.len() && parent_of(c) == k implies !precedes(#[trigger] v@[c], v@[m as int]) by {
            assert(c == l || c == l + 1);
        }
        if expanded_before(&v[m], &v[k]) {
            proof {
                lemma_sift_down_step(v@, k as int, m as int);
                lemma_swap_multiset(v@, k as int, m as int);
            }
            let a = v[k];
            let b = v[m];
            v.set(k, b);
            v.set(m, a);
            k = m;
        } else {
            assert(is_heap(v@)) by {
                assert forall|i: int| 0 < i < v@.len() implies !precedes(#[trigger] v@[i], v@[parent_of(i)]) by {
                    if parent_of(i) == k {
                        assert(!precedes(v@[i], v@[m as int]));
                    }
                }
            }
            return root;
        }
    }
}

} // verus!
