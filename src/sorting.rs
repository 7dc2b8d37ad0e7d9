use vstd::prelude::*;
use vstd::seq_lib::*;
use vstd::multiset::*;

verus! {

broadcast use {group_to_multiset_ensures, group_multiset_axioms};

/// `s` is in non-decreasing order.
pub open spec fn is_sorted(s: Seq<i32>) -> bool {
    forall|i: int, j: int| 0 <= i < j < s.len() ==> s[i] <= s[j]
}

/// `t` holds the same elements as `s`, each as many times.
pub open spec fn is_permutation(s: Seq<i32>, t: Seq<i32>) -> bool {
    t.to_multiset() == s.to_multiset()
}

/// `t` is a sorted arrangement of the elements of `s`.
pub open spec fn sorts_to(s: Seq<i32>, t: Seq<i32>) -> bool {
    is_permutation(s, t) && is_sorted(t)
}

/// `t` agrees with `s` everywhere outside the index range `[lo, hi)`.
pub open spec fn same_outside(s: Seq<i32>, t: Seq<i32>, lo: int, hi: int) -> bool {
    &&& t.len() == s.len()
    &&& forall|k: int| 0 <= k < s.len() && !(lo <= k < hi) ==> #[trigger] t[k] == s[k]
}

/// Moving the element at `hi` to position `lo` (shifting those in between one
/// place up) keeps the multiset of elements.
proof fn lemma_rotate_keeps_multiset(s: Seq<i32>, lo: int, hi: int)
    requires
        0 <= lo <= hi < s.len(),
    ensures
        s.remove(hi).insert(lo, s[hi]).to_multiset() == s.to_multiset(),
{
    assert(s.to_multiset().count(s[hi]) > 0);
    assert(s.remove(hi).to_multiset().insert(s[hi]) =~= s.to_multiset());
}

/// Two sequences that agree outside `[lo, hi)` and have the same multiset of
/// elements also have the same multiset of elements inside `[lo, hi)`.
proof fn lemma_inner_multiset(s: Seq<i32>, t: Seq<i32>, lo: int, hi: int)
    requires
        0 <= lo <= hi <= s.len(),
        same_outside(s, t, lo, hi),
        t.to_multiset() == s.to_multiset(),
    ensures
        t.subrange(lo, hi).to_multiset() == s.subrange(lo, hi).to_multiset(),
{
    let n = s.len() as int;
    assert(s =~= s.subrange(0, lo) + s.subrange(lo, hi) + s.subrange(hi, n));
    assert(t =~= t.subrange(0, lo) + t.subrange(lo, hi) + t.subrange(hi, n));
    assert(t.subrange(0, lo) =~= s.subrange(0, lo));
    assert(t.subrange(hi, n) =~= s.subrange(hi, n));
    lemma_multiset_commutative(s.subrange(0, lo) + s.subrange(lo, hi), s.subrange(hi, n));
    lemma_multiset_commutative(s.subrange(0, lo), s.subrange(lo, hi));
    lemma_multiset_commutative(t.subrange(0, lo) + t.subrange(lo, hi), t.subrange(hi, n));
    lemma_multiset_commutative(t.subrange(0, lo), t.subrange(lo, hi));
    let a = s.subrange(0, lo).to_multiset();
    let c = s.subrange(hi, n).to_multiset();
    let ms = s.subrange(lo, hi).to_multiset();
    let mt = t.subrange(lo, hi).to_multiset();
    assert(s.to_multiset() == a.add(ms).add(c));
    assert(t.to_multiset() == a.add(mt).add(c));
    assert forall|x: i32| #[trigger] mt.count(x) == ms.count(x) by {
        assert(a.add(ms).add(c).count(x) == a.add(mt).add(c).count(x));
    }
    assert(mt =~= ms);
}

/// Rearranges `ns[start..end]` around its first element, the pivot: the
/// elements less than the pivot come first, in their original order, then the
/// pivot, then the others. Returns the pivot's new index.
fn partition(ns: &mut [i32], start: usize, end: usize) -> (pi: usize)
    requires
        start < end <= old(ns)@.len(),
    ensures
        start <= pi < end,
        same_outside(old(ns)@, final(ns)@, start as int, end as int),
        final(ns)@.subrange(start as int, end as int).to_multiset()
            == old(ns)@.subrange(start as int, end as int).to_multiset(),
        final(ns)@[pi as int] == old(ns)@[start as int],
        forall|k: int| start <= k < pi ==> #[trigger] final(ns)@[k] < final(ns)@[pi as int],
        forall|k: int| pi < k < end ==> #[trigger] final(ns)@[k] >= final(ns)@[pi as int],
{
    let ghost s0 = ns@;
    let ghost p = s0[start as int];
    let mut pi: usize = start;
    let mut si: usize = start + 1;
    while si < end
        invariant
            start <= pi < si <= end,
            end <= s0.len(),
            p == s0[start as int],
            same_outside(s0, ns@, start as int, si as int),
            ns@.to_multiset() == s0.to_multiset(),
            ns@[pi as int] == p,
            forall|k: int| start <= k < pi ==> #[trigger] ns@[k] < p,
            forall|k: int| pi < k < si ==> #[trigger] ns@[k] >= p,
        decreases end - si,
    {
        if ns[si] < ns[pi] {
            let ghost s1 = ns@;
            let t = ns[si];
            let mut j: usize = si;
            while j > pi
                invariant
                    pi <= j <= si,
                    si < s1.len(),
                    ns@.len() == s1.len(),
                    forall|k: int|
                        0 <= k < s1.len() ==> #[trigger] ns@[k] == if j < k <= si {
                            s1[k - 1]
                        } else {
                            s1[k]
                        },
                decreases j,
            {
                ns[j] = ns[j - 1];
                j -= 1;
            }
            ns[pi] = t;
            proof {
                assert(ns@ =~= s1.remove(si as int).insert(pi as int, t));
                lemma_rotate_keeps_multiset(s1, pi as int, si as int);
            }
            pi += 1;
        }
        si += 1;
    }
    proof {
        lemma_inner_multiset(s0, ns@, start as int, end as int);
    }
    pi
}

/// Whatever bound holds of every element of `s` holds of every element of
/// any sequence with the same multiset of elements.
proof fn lemma_bound_carries_over(s: Seq<i32>, t: Seq<i32>, bound: spec_fn(i32) -> bool)
    requires
        t.to_multiset() == s.to_multiset(),
        forall|k: int| 0 <= k < s.len() ==> bound(#[trigger] s[k]),
    ensures
        forall|k: int| 0 <= k < t.len() ==> bound(#[trigger] t[k]),
{
    assert forall|k: int| 0 <= k < t.len() implies bound(#[trigger] t[k]) by {
        assert(t.contains(t[k]));
        assert(s.to_multiset().count(t[k]) > 0);
        assert(s.contains(t[k]));
        let i = choose|i: int| 0 <= i < s.len() && s[i] == t[k];
        assert(bound(s[i]));
    }
}

/// Sorts `ns[start..end]` in place and leaves the rest of `ns` as it was.
fn qsort_range(ns: &mut [i32], start: usize, end: usize)
    requires
        start <= end <= old(ns)@.len(),
    ensures
        same_outside(old(ns)@, final(ns)@, start as int, end as int),
        sorts_to(
            old(ns)@.subrange(start as int, end as int),
            final(ns)@.subrange(start as int, end as int),
        ),
    decreases end - start,
{
    if end - start > 1 {
        let ghost s0 = ns@;
        let pi = partition(ns, start, end);
        let ghost s1 = ns@;
        let ghost p = s1[pi as int];
        qsort_range(ns, start, pi);
        let ghost s2 = ns@;
        qsort_range(ns, pi + 1, end);
        let ghost s3 = ns@;
        proof {
            let (lo, hi, m) = (start as int, end as int, pi as int);
            // the left part still lies below the pivot, the right part at or above it
            assert forall|k: int| 0 <= k < s1.subrange(lo, m).len() implies
                (|x: i32| x < p)(#[trigger] s1.subrange(lo, m)[k]) by {}
            lemma_bound_carries_over(s1.subrange(lo, m), s2.subrange(lo, m), |x: i32| x < p);
            assert forall|k: int| 0 <= k < s2.subrange(m + 1, hi).len() implies
                (|x: i32| x >= p)(#[trigger] s2.subrange(m + 1, hi)[k]) by {}
            assert(s2.subrange(m + 1, hi) =~= s1.subrange(m + 1, hi));
            lemma_bound_carries_over(
                s2.subrange(m + 1, hi),
                s3.subrange(m + 1, hi),
                |x: i32| x >= p,
            );
            assert forall|k: int| lo <= k < m implies #[trigger] s3[k] < p by {
                assert(s3[k] == s2[k]);
                assert(s2[k] == s2.subrange(lo, m)[k - lo]);
            }
            assert forall|k: int| m < k < hi implies #[trigger] s3[k] >= p by {
                assert(s3[k] == s3.subrange(m + 1, hi)[k - m - 1]);
            }
            // the pieces keep their elements, and so does the whole range
            let left = s3.subrange(lo, m);
            let right = s3.subrange(m + 1, hi);
            assert(left =~= s2.subrange(lo, m));
            assert(s3.subrange(lo, hi) =~= left + seq![p] + right);
            assert(s1.subrange(lo, hi) =~= s1.subrange(lo, m) + seq![p] + s1.subrange(m + 1, hi));
            lemma_multiset_commutative(left + seq![p], right);
            lemma_multiset_commutative(left, seq![p]);
            lemma_multiset_commutative(s1.subrange(lo, m) + seq![p], s1.subrange(m + 1, hi));
            lemma_multiset_commutative(s1.subrange(lo, m), seq![p]);
            assert(s3.subrange(lo, hi).to_multiset() =~= s1.subrange(lo, hi).to_multiset());
            assert forall|i: int, j: int| lo <= i < j < hi implies s3[i] <= s3[j] by {
                if j < m {
                    assert(left[i - lo] <= left[j - lo]);
                } else if i > m {
                    assert(right[i - m - 1] <= right[j - m - 1]);
                }
            }
            assert(is_sorted(s3.subrange(lo, hi)));
        }
    } else {
        proof {
            assert(is_sorted(ns@.subrange(start as int, end as int)));
        }
    }
}

/// Sorts `ns` in place into non-decreasing order: a quicksort that takes the
/// first element of each range as its pivot and partitions by shifting the
/// smaller elements in front of it.
pub fn qsort(ns: &mut [i32])
    ensures
        sorts_to(old(ns)@, final(ns)@),
{
    let n: usize = ns.len();
    qsort_range(ns, 0, n);
    proof {
        assert(old(ns)@.subrange(0, n as int) =~= old(ns)@);
        assert(ns@.subrange(0, n as int) =~= ns@);
    }
}

/// A sequence has exactly one sorted arrangement: two sorted sequences with
/// the same elements are equal.
pub proof fn lemma_sorted_arrangement_unique(t: Seq<i32>, u: Seq<i32>)
    requires
        is_sorted(t),
        is_sorted(u),
        is_permutation(t, u),
    ensures
        u == t,
{
    let leq = |a: i32, b: i32| a <= b;
    assert(vstd::relations::total_ordering(leq));
    assert(vstd::relations::sorted_by(t, leq));
    assert(vstd::relations::sorted_by(u, leq));
    lemma_sorted_unique(t, u, leq);
}

/// Sorting is idempotent: sorting the result of a sort gives that result back.
pub proof fn lemma_sort_idempotent(s: Seq<i32>, t: Seq<i32>, u: Seq<i32>)
    requires
        sorts_to(s, t),
        sorts_to(t, u),
    ensures
        u == t,
{
    lemma_sorted_arrangement_unique(t, u);
}

/// Sorting a sequence that is already in order leaves it as it was.
pub proof fn lemma_sort_of_sorted(s: Seq<i32>, t: Seq<i32>)
    requires
        is_sorted(s),
        sorts_to(s, t),
    ensures
        t == s,
{
    lemma_sorted_arrangement_unique(s, t);
}

/// Sorting the empty sequence, or one of a single element, leaves it as it was.
pub proof fn lemma_sort_of_short(s: Seq<i32>, t: Seq<i32>)
    requires
        s.len() <= 1,
        sorts_to(s, t),
    ensures
        t == s,
{
    lemma_sort_of_sorted(s, t);
}

} // verus!
