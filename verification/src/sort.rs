use vstd::prelude::*;

verus! {

use vstd::seq_lib::group_to_multiset_ensures;
use vstd::seq_lib::lemma_multiset_commutative;
use vstd::seq_lib::lemma_sorted_unique;
use vstd::relations::sorted_by;
use vstd::relations::total_ordering;
use vstd::multiset::group_multiset_axioms;

/// A sequence is sorted when every element is at most each element after it;
/// in particular every adjacent pair is non-decreasing.
pub open spec fn sorted(s: Seq<i32>) -> bool {
    forall|i: int, j: int| 0 <= i <= j < s.len() ==> s[i] <= s[j]
}

/// Sorting is idempotent: a sorted sequence with the same multiset of
/// elements as an already-sorted sequence is that sequence itself, so
/// sorting a sorted sequence returns it unchanged.
pub proof fn lemma_sorted_permutation_is_identity(pre: Seq<i32>, post: Seq<i32>)
    requires
        sorted(pre),
        sorted(post),
        post.to_multiset() == pre.to_multiset(),
    ensures
        post == pre,
{
    let leq = |x: i32, y: i32| x <= y;
    assert forall|x: i32| #[trigger] leq(x, x) by {}
    assert(total_ordering(leq));
    assert(sorted_by(pre, leq));
    assert(sorted_by(post, leq));
    lemma_sorted_unique(pre, post, leq);
}

/// Sorting keeps an empty sequence empty and a one-element sequence itself:
/// a sequence whose multiset of elements matches one of length at most one is
/// that sequence, whether or not it was sorted on purpose.
pub proof fn lemma_small_permutation_is_identity(pre: Seq<i32>, post: Seq<i32>)
    requires
        pre.len() <= 1,
        post.to_multiset() == pre.to_multiset(),
    ensures
        post == pre,
{
    broadcast use group_to_multiset_ensures;

    assert(post.len() == post.to_multiset().len());
    assert(pre.len() == pre.to_multiset().len());
    if pre.len() == 0 {
        assert(post =~= pre);
    } else {
        assert(post.contains(post[0]));
        assert(post.to_multiset().count(post[0]) > 0);
        assert(pre.contains(post[0]));
        let m = choose|m: int| 0 <= m < pre.len() && pre[m] == post[0];
        assert(pre[m] == post[0]);
        assert(post =~= pre);
    }
}

/// Exchanging the values at two positions of a sequence leaves its multiset of
/// elements unchanged.
proof fn lemma_swap_multiset(s: Seq<i32>, i: int, j: int)
    requires
        0 <= i < s.len(),
        0 <= j < s.len(),
    ensures
        s.update(i, s[j]).update(j, s[i]).to_multiset() == s.to_multiset(),
{
    broadcast use group_to_multiset_ensures;
    broadcast use group_multiset_axioms;

    let t = s.update(i, s[j]).update(j, s[i]);
    if i == j {
        assert(t =~= s);
    } else {
        let u = s.update(i, s[j]);
        assert(s.contains(s[i]));
        assert(u.contains(u[j]));
        assert(u[j] == s[j]);
        assert(u.to_multiset() == s.to_multiset().insert(s[j]).remove(s[i]));
        assert(t.to_multiset() == u.to_multiset().insert(s[i]).remove(u[j]));
        assert forall|x: i32| t.to_multiset().count(x) == s.to_multiset().count(x) by {
            assert(s.to_multiset().count(s[i]) > 0);
        }
        assert(t.to_multiset() =~= s.to_multiset());
    }
}

/// A sequence splits into the part before `lo`, the range `[lo, hi)`, and the
/// part from `hi` on; its multiset is the sum of the three parts' multisets.
proof fn lemma_multiset_decompose(s: Seq<i32>, lo: int, hi: int)
    requires
        0 <= lo <= hi <= s.len(),
    ensures
        s.to_multiset() == s.subrange(0, lo).to_multiset().add(
            s.subrange(lo, hi).to_multiset(),
        ).add(s.subrange(hi, s.len() as int).to_multiset()),
{
    broadcast use group_multiset_axioms;

    assert(s =~= (s.subrange(0, lo) + s.subrange(lo, hi)) + s.subrange(hi, s.len() as int));
    lemma_multiset_commutative(s.subrange(0, lo), s.subrange(lo, hi));
    lemma_multiset_commutative(
        s.subrange(0, lo) + s.subrange(lo, hi),
        s.subrange(hi, s.len() as int),
    );
}

/// Two sequences of one length, equal in their multisets and equal outside
/// `[lo, hi)` position by position, have equal multisets over `[lo, hi)` too.
proof fn lemma_frame_submultiset(s: Seq<i32>, t: Seq<i32>, lo: int, hi: int)
    requires
        s.len() == t.len(),
        0 <= lo <= hi <= s.len(),
        s.to_multiset() == t.to_multiset(),
        forall|k: int| 0 <= k < lo || hi <= k < s.len() ==> s[k] == t[k],
    ensures
        s.subrange(lo, hi).to_multiset() == t.subrange(lo, hi).to_multiset(),
{
    broadcast use group_multiset_axioms;

    lemma_multiset_decompose(s, lo, hi);
    lemma_multiset_decompose(t, lo, hi);
    assert(s.subrange(0, lo) =~= t.subrange(0, lo));
    assert(s.subrange(hi, s.len() as int) =~= t.subrange(hi, t.len() as int));
    assert forall|x: i32|
        s.subrange(lo, hi).to_multiset().count(x) == t.subrange(lo, hi).to_multiset().count(
            x,
        ) by {
        assert(s.to_multiset().count(x) == s.subrange(0, lo).to_multiset().count(x)
            + s.subrange(lo, hi).to_multiset().count(x) + s.subrange(
            hi,
            s.len() as int,
        ).to_multiset().count(x));
        assert(t.to_multiset().count(x) == t.subrange(0, lo).to_multiset().count(x)
            + t.subrange(lo, hi).to_multiset().count(x) + t.subrange(
            hi,
            t.len() as int,
        ).to_multiset().count(x));
    }
    assert(s.subrange(lo, hi).to_multiset() =~= t.subrange(lo, hi).to_multiset());
}

/// An upper bound on every element of a sequence carries over to any sequence
/// with the same multiset of elements.
proof fn lemma_le_bound_transfer(a: Seq<i32>, b: Seq<i32>, bound: i32)
    requires
        a.to_multiset() == b.to_multiset(),
        forall|k: int| 0 <= k < a.len() ==> a[k] <= bound,
    ensures
        forall|k: int| 0 <= k < b.len() ==> b[k] <= bound,
{
    broadcast use group_to_multiset_ensures;

    assert forall|k: int| 0 <= k < b.len() implies b[k] <= bound by {
        assert(b.contains(b[k]));
        assert(a.to_multiset().count(b[k]) > 0);
        assert(a.contains(b[k]));
        let m = choose|m: int| 0 <= m < a.len() && a[m] == b[k];
        assert(a[m] <= bound);
    }
}

/// A strict lower bound on every element of a sequence carries over to any
/// sequence with the same multiset of elements.
proof fn lemma_gt_bound_transfer(a: Seq<i32>, b: Seq<i32>, bound: i32)
    requires
        a.to_multiset() == b.to_multiset(),
        forall|k: int| 0 <= k < a.len() ==> a[k] > bound,
    ensures
        forall|k: int| 0 <= k < b.len() ==> b[k] > bound,
{
    broadcast use group_to_multiset_ensures;

    assert forall|k: int| 0 <= k < b.len() implies b[k] > bound by {
        assert(b.contains(b[k]));
        assert(a.to_multiset().count(b[k]) > 0);
        assert(a.contains(b[k]));
        let m = choose|m: int| 0 <= m < a.len() && a[m] == b[k];
        assert(a[m] > bound);
    }
}

/// Lomuto partition of the range `[lo, hi)` of `v`, with the range's last
/// element as the pivot. Afterwards the pivot stands at the returned index:
/// everything before it within the range is at most the pivot, everything
/// after it within the range is greater, and nothing outside the range moves.
pub fn partition(v: &mut Vec<i32>, lo: usize, hi: usize) -> (p: usize)
    requires
        lo < hi <= old(v).len(),
    ensures
        lo <= p < hi,
        final(v)@.len() == old(v)@.len(),
        final(v)@[p as int] == old(v)@[hi - 1],
        forall|k: int| 0 <= k < lo || hi <= k < old(v)@.len() ==> final(v)@[k] == old(v)@[k],
        final(v)@.to_multiset() == old(v)@.to_multiset(),
        forall|k: int| lo <= k < p ==> final(v)@[k] <= final(v)@[p as int],
        forall|k: int| p < k < hi ==> final(v)@[k] > final(v)@[p as int],
{
    let pivot: i32 = v[hi - 1];
    let mut i: usize = lo;
    let mut j: usize = lo;
    while j < hi - 1
        invariant
            lo <= i <= j <= hi - 1,
            hi <= v@.len() == old(v)@.len(),
            v@[hi - 1] == pivot,
            forall|k: int| 0 <= k < lo || hi <= k < v@.len() ==> v@[k] == old(v)@[k],
            v@.to_multiset() == old(v)@.to_multiset(),
            forall|k: int| lo <= k < i ==> v@[k] <= pivot,
            forall|k: int| i <= k < j ==> v@[k] > pivot,
        decreases hi - 1 - j,
    {
        if v[j] <= pivot {
            let a: i32 = v[i];
            let b: i32 = v[j];
            proof {
                lemma_swap_multiset(v@, i as int, j as int);
            }
            v.set(i, b);
            v.set(j, a);
            i = i + 1;
        }
        j = j + 1;
    }
    let a: i32 = v[i];
    let b: i32 = v[hi - 1];
    proof {
        lemma_swap_multiset(v@, i as int, hi - 1);
    }
    v.set(i, b);
    v.set(hi - 1, a);
    i
}

/// Quicksort over the range `[lo, hi)` of `v`: partition the range, then sort
/// what lies before the pivot and what lies after it. The range ends sorted
/// with its multiset of elements unchanged, and nothing outside it moves.
pub fn quicksort_helper(v: &mut Vec<i32>, lo: usize, hi: usize)
    requires
        lo <= hi <= old(v).len(),
    ensures
        final(v)@.len() == old(v)@.len(),
        forall|k: int| 0 <= k < lo || hi <= k < old(v)@.len() ==> final(v)@[k] == old(v)@[k],
        final(v)@.to_multiset() == old(v)@.to_multiset(),
        sorted(final(v)@.subrange(lo as int, hi as int)),
    decreases hi - lo,
{
    if lo < hi {
        let ghost s0 = v@;
        let p: usize = partition(v, lo, hi);
        let ghost s1 = v@;
        quicksort_helper(v, lo, p);
        let ghost s2 = v@;
        quicksort_helper(v, p + 1, hi);
        let ghost s3 = v@;
        proof {
            let piv = s1[p as int];
            lemma_frame_submultiset(s1, s2, lo as int, p as int);
            lemma_frame_submultiset(s2, s3, p + 1, hi as int);
            assert(s1.subrange(lo as int, p as int).to_multiset() == s2.subrange(
                lo as int,
                p as int,
            ).to_multiset());
            assert forall|k: int| 0 <= k < s1.subrange(lo as int, p as int).len()
                implies #[trigger] s1.subrange(lo as int, p as int)[k] <= piv by {
                assert(s1[lo + k] <= piv);
            }
            lemma_le_bound_transfer(
                s1.subrange(lo as int, p as int),
                s2.subrange(lo as int, p as int),
                piv,
            );
            assert forall|k: int| 0 <= k < s2.subrange(p + 1, hi as int).len()
                implies #[trigger] s2.subrange(p + 1, hi as int)[k] > piv by {
                assert(s2[p + 1 + k] == s1[p + 1 + k]);
                assert(s1[p + 1 + k] > piv);
            }
            lemma_gt_bound_transfer(
                s2.subrange(p + 1, hi as int),
                s3.subrange(p + 1, hi as int),
                piv,
            );
            assert(s3.subrange(lo as int, p as int) =~= s2.subrange(lo as int, p as int));
            assert(s3[p as int] == piv);
            let out = s3.subrange(lo as int, hi as int);
            assert forall|x: int, y: int| 0 <= x <= y < out.len() implies out[x] <= out[y] by {
                let gx = lo + x;
                let gy = lo + y;
                assert(out[x] == s3[gx] && out[y] == s3[gy]);
                if gy < p {
                    assert(s3.subrange(lo as int, p as int)[x] <= s3.subrange(
                        lo as int,
                        p as int,
                    )[y]);
                } else if gx < p {
                    assert(s3.subrange(lo as int, p as int)[x] == s3[gx]);
                    assert(s3[gx] <= piv);
                    if gy > p {
                        assert(s3.subrange(p + 1, hi as int)[gy - (p + 1)] == s3[gy]);
                        assert(s3[gy] > piv);
                    }
                } else if gx == p {
                    if gy > p {
                        assert(s3.subrange(p + 1, hi as int)[gy - (p + 1)] == s3[gy]);
                        assert(s3[gy] > piv);
                    }
                } else {
                    assert(s3.subrange(p + 1, hi as int)[gx - (p + 1)] <= s3.subrange(
                        p + 1,
                        hi as int,
                    )[gy - (p + 1)]);
                }
            }
        }
    } else {
        proof {
            assert(v@.subrange(lo as int, hi as int).len() == 0);
        }
    }
}

} // verus!
