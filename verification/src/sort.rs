//! Stable merge sort over a mutable slice.

use crate::order::{class_of, ord_le, sorted, tied, total_preorder};
use vstd::prelude::*;
use vstd::seq_lib::lemma_multiset_commutative;

verus! {

/// `r` holds the elements that tie with any given value in the same relative
/// order as `s` does.
pub open spec fn keeps_tied_order<T: PartialOrd>(s: Seq<T>, r: Seq<T>) -> bool {
    forall|x: T| #[trigger] class_of(r, x) == class_of(s, x)
}

/// No element of `s` ties with `x`, so the class of `x` in `s` is empty.
proof fn lemma_class_empty<T: PartialOrd>(s: Seq<T>, x: T)
    requires
        forall|k: int| 0 <= k < s.len() ==> !tied(x, #[trigger] s[k]),
    ensures
        class_of(s, x) == Seq::<T>::empty(),
    decreases s.len(),
{
    reveal(Seq::filter);
    if s.len() > 0 {
        lemma_class_empty(s.drop_last(), x);
    }
}

/// The class of `x` in `s.push(e)` is its class in `s`, with `e` at the end
/// where `e` ties with `x`.
proof fn lemma_class_push<T: PartialOrd>(s: Seq<T>, e: T, x: T)
    ensures
        class_of(s.push(e), x) == if tied(x, e) {
            class_of(s, x).push(e)
        } else {
            class_of(s, x)
        },
{
    s.lemma_filter_push(e, |y: T| tied(x, y));
}

/// Classes distribute over concatenation.
proof fn lemma_class_concat<T: PartialOrd>(a: Seq<T>, b: Seq<T>, x: T)
    ensures
        class_of(a + b, x) == class_of(a, x) + class_of(b, x),
{
    Seq::filter_distributes_over_add(a, b, |y: T| tied(x, y));
}

/// Merges the two runs `arr[..mid]` and `arr[mid..]` into a new vector,
/// taking from the left run whenever its front element is ordered no later
/// than the front of the right run.
fn merge<T: Ord + Copy>(arr: &[T], mid: usize) -> (merged: Vec<T>)
    requires
        mid <= arr@.len(),
    ensures
        merged@.len() == arr@.len(),
        merged@.to_multiset() == arr@.to_multiset(),
        total_preorder::<T>() && sorted(arr@.subrange(0, mid as int)) && sorted(
            arr@.subrange(mid as int, arr@.len() as int),
        ) ==> sorted(merged@) && keeps_tied_order(arr@, merged@),
{
    let n: usize = arr.len();
    let ghost lawful = total_preorder::<T>() && sorted(arr@.subrange(0, mid as int)) && sorted(
        arr@.subrange(mid as int, n as int),
    );
    let mut merged: Vec<T> = Vec::with_capacity(n);
    let mut i: usize = 0;
    let mut j: usize = mid;
    proof {
        assert forall|x: T| #[trigger]
            class_of(merged@, x) == class_of(arr@.subrange(0, 0), x) + class_of(
                arr@.subrange(mid as int, mid as int),
                x,
            ) by {
            lemma_class_empty(merged@, x);
            lemma_class_empty(arr@.subrange(0, 0), x);
            lemma_class_empty(arr@.subrange(mid as int, mid as int), x);
        }
        assert(arr@.subrange(0, 0) =~= Seq::<T>::empty());
        assert(arr@.subrange(mid as int, mid as int) =~= Seq::<T>::empty());
        assert(merged@ =~= Seq::<T>::empty());
        assert(Seq::<T>::empty() + Seq::<T>::empty() =~= Seq::<T>::empty());
        lemma_multiset_commutative(Seq::<T>::empty(), Seq::<T>::empty());
    }
    while i < mid || j < n
        invariant
            n == arr@.len(),
            i <= mid <= j <= n,
            lawful == (total_preorder::<T>() && sorted(arr@.subrange(0, mid as int)) && sorted(
                arr@.subrange(mid as int, n as int),
            )),
            merged@.len() == i + (j - mid),
            merged@.to_multiset() == arr@.subrange(0, i as int).to_multiset().add(
                arr@.subrange(mid as int, j as int).to_multiset(),
            ),
            lawful ==> sorted(merged@),
            lawful ==> forall|k: int, p: int|
                0 <= k < merged@.len() && (i <= p < mid || j <= p < n) ==> ord_le(
                    #[trigger] merged@[k],
                    #[trigger] arr@[p],
                ),
            lawful ==> forall|p: int, q: int|
                i <= p < mid && mid <= q < j ==> !ord_le(#[trigger] arr@[p], #[trigger] arr@[q]),
            lawful ==> forall|x: T| #[trigger]
                class_of(merged@, x) == class_of(arr@.subrange(0, i as int), x) + class_of(
                    arr@.subrange(mid as int, j as int),
                    x,
                ),
        decreases (mid - i) + (n - j),
    {
        let ghost prev = merged@;
        let ghost left = arr@.subrange(0, i as int);
        let ghost right = arr@.subrange(mid as int, j as int);
        let take_left: bool = if i >= mid {
            false
        } else if j >= n {
            true
        } else {
            arr[i] <= arr[j]
        };
        if take_left {
            let e: T = arr[i];
            merged.push(e);
            proof {
                assert(arr@.subrange(0, i + 1) =~= left.push(e));
                vstd::seq_lib::to_multiset_build(left, e);
                vstd::seq_lib::to_multiset_build(prev, e);
                assert(merged@.to_multiset() =~= left.push(e).to_multiset().add(
                    right.to_multiset(),
                ));
                if lawful {
                    assert forall|p: int| i <= p < mid implies ord_le(e, #[trigger] arr@[p]) by {
                        lemma_sorted_subrange(arr@, 0, mid as int, i as int, p);
                    }
                    assert forall|p: int| j <= p < n implies ord_le(e, #[trigger] arr@[p]) by {
                        lemma_sorted_subrange(arr@, mid as int, n as int, j as int, p);
                        assert(ord_le(e, arr@[j as int]));
                    }
                    assert forall|x: T| #[trigger]
                        class_of(merged@, x) == class_of(left.push(e), x) + class_of(right, x) by {
                        lemma_class_push(prev, e, x);
                        lemma_class_push(left, e, x);
                        if tied(x, e) {
                            assert forall|k: int| 0 <= k < right.len() implies !tied(
                                x,
                                #[trigger] right[k],
                            ) by {
                                assert(!ord_le(arr@[i as int], arr@[mid + k]));
                            }
                            lemma_class_empty(right, x);
                            assert(class_of(prev, x).push(e) =~= class_of(left, x).push(e)
                                + class_of(right, x));
                        }
                    }
                }
            }
            i += 1;
        } else {
            let e: T = arr[j];
            merged.push(e);
            proof {
                assert(arr@.subrange(mid as int, j + 1) =~= right.push(e));
                vstd::seq_lib::to_multiset_build(right, e);
                vstd::seq_lib::to_multiset_build(prev, e);
                assert(merged@.to_multiset() =~= left.to_multiset().add(
                    right.push(e).to_multiset(),
                ));
                if lawful {
                    assert forall|p: int| j <= p < n implies ord_le(e, #[trigger] arr@[p]) by {
                        lemma_sorted_subrange(arr@, mid as int, n as int, j as int, p);
                    }
                    assert forall|p: int| i <= p < mid implies ord_le(e, #[trigger] arr@[p])
                        && !ord_le(arr@[p], e) by {
                        lemma_sorted_subrange(arr@, 0, mid as int, i as int, p);
                        assert(ord_le(e, arr@[i as int]) || ord_le(arr@[i as int], e));
                    }
                    assert forall|x: T| #[trigger]
                        class_of(merged@, x) == class_of(left, x) + class_of(right.push(e), x) by {
                        lemma_class_push(prev, e, x);
                        lemma_class_push(right, e, x);
                        if tied(x, e) {
                            assert(class_of(prev, x).push(e) =~= class_of(left, x) + class_of(
                                right,
                                x,
                            ).push(e));
                        }
                    }
                }
            }
            j += 1;
        }
    }
    proof {
        assert(arr@.subrange(0, mid as int) + arr@.subrange(mid as int, n as int) =~= arr@);
        lemma_multiset_commutative(arr@.subrange(0, mid as int), arr@.subrange(mid as int, n as int));
        if lawful {
            assert forall|x: T| #[trigger] class_of(merged@, x) == class_of(arr@, x) by {
                lemma_class_concat(
                    arr@.subrange(0, mid as int),
                    arr@.subrange(mid as int, n as int),
                    x,
                );
            }
        }
    }
    merged
}

/// Within a sorted stretch `s[lo..hi]`, an element is ordered no later than
/// any element that follows it, itself included.
proof fn lemma_sorted_subrange<T: PartialOrd>(s: Seq<T>, lo: int, hi: int, p: int, q: int)
    requires
        total_preorder::<T>(),
        0 <= lo <= p <= q < hi <= s.len(),
        sorted(s.subrange(lo, hi)),
    ensures
        ord_le(s[p], s[q]),
{
    let t = s.subrange(lo, hi);
    assert(t[p - lo] == s[p]);
    assert(t[q - lo] == s[q]);
    if p == q {
        assert(ord_le(s[p], s[p]) || ord_le(s[p], s[p]));
    }
}

/// Sorts `arr` in place into non-decreasing order.
///
/// The result is always a rearrangement of the input. Where the comparison
/// of `T` is a total preorder, the result is sorted and elements that tie
/// keep their relative order.
pub fn merge_sort<T: Ord + Copy>(arr: &mut [T])
    ensures
        final(arr)@.len() == old(arr)@.len(),
        final(arr)@.to_multiset() == old(arr)@.to_multiset(),
        total_preorder::<T>() ==> sorted(final(arr)@),
        total_preorder::<T>() ==> keeps_tied_order(old(arr)@, final(arr)@),
    decreases old(arr)@.len(),
{
    let n: usize = arr.len();
    let mid: usize = n / 2;
    if mid == 0 {
        return ;
    }
    let ghost before = arr@;
    let ghost left0 = before.subrange(0, mid as int);
    let ghost right0 = before.subrange(mid as int, n as int);
    let (left, right) = arr.split_at_mut(mid);
    merge_sort(left);
    merge_sort(right);
    let ghost left1 = left@;
    let ghost right1 = right@;
    let merged = merge(arr, mid);
    proof {
        assert(arr@.subrange(0, mid as int) =~= left1);
        assert(arr@.subrange(mid as int, n as int) =~= right1);
        assert(before =~= left0 + right0);
        lemma_multiset_commutative(left1, right1);
        lemma_multiset_commutative(left0, right0);
        if total_preorder::<T>() {
            assert forall|x: T| #[trigger] class_of(merged@, x) == class_of(before, x) by {
                lemma_class_concat(left0, right0, x);
                lemma_class_concat(left1, right1, x);
            }
        }
    }
    let mut k: usize = 0;
    while k < n
        invariant
            n == arr@.len(),
            n == merged@.len(),
            k <= n,
            forall|t: int| 0 <= t < k ==> arr@[t] == merged@[t],
        decreases n - k,
    {
        arr[k] = merged[k];
        k += 1;
    }
    assert(arr@ =~= merged@);
}

/// Two sorted sequences with the same elements, each holding tied elements
/// in the same relative order as the other, are the same sequence: what
/// `merge_sort` promises of its result leaves exactly one result.
pub proof fn lemma_stable_sort_unique<T: PartialOrd>(a: Seq<T>, b: Seq<T>)
    requires
        total_preorder::<T>(),
        sorted(a),
        sorted(b),
        a.to_multiset() == b.to_multiset(),
        keeps_tied_order(a, b),
    ensures
        a == b,
    decreases a.len(),
{
    vstd::seq_lib::to_multiset_len(a);
    vstd::seq_lib::to_multiset_len(b);
    if a.len() == 0 {
        assert(a =~= b);
    } else {
        let n = a.len() as int;
        let la = a.last();
        let lb = b.last();
        let a0 = a.drop_last();
        let b0 = b.drop_last();
        assert(a =~= a0.push(la));
        assert(b =~= b0.push(lb));
        assert(ord_le(lb, la)) by {
            vstd::seq_lib::to_multiset_contains(a, lb);
            vstd::seq_lib::to_multiset_contains(b, lb);
            assert(b.contains(lb));
            let k = choose|k: int| 0 <= k < a.len() && a[k] == lb;
            if k == n - 1 {
                assert(ord_le(la, la) || ord_le(la, la));
            } else {
                assert(ord_le(a[k], a[n - 1]));
            }
        }
        assert(ord_le(la, lb)) by {
            vstd::seq_lib::to_multiset_contains(a, la);
            vstd::seq_lib::to_multiset_contains(b, la);
            assert(a.contains(la));
            let k = choose|k: int| 0 <= k < b.len() && b[k] == la;
            if k == n - 1 {
                assert(ord_le(lb, lb) || ord_le(lb, lb));
            } else {
                assert(ord_le(b[k], b[n - 1]));
            }
        }
        assert(la == lb) by {
            lemma_class_push(a0, la, la);
            lemma_class_push(b0, lb, la);
            assert(class_of(a0, la).push(la).last() == la);
            assert(class_of(b0, la).push(lb).last() == lb);
        }
        assert(a0.to_multiset() =~= b0.to_multiset()) by {
            vstd::seq_lib::to_multiset_build(a0, la);
            vstd::seq_lib::to_multiset_build(b0, la);
            assert(a0.to_multiset() =~= a.to_multiset().remove(la));
            assert(b0.to_multiset() =~= b.to_multiset().remove(la));
        }
        assert forall|x: T| #[trigger] class_of(b0, x) == class_of(a0, x) by {
            lemma_class_push(a0, la, x);
            lemma_class_push(b0, la, x);
            if tied(x, la) {
                assert(class_of(a0, x).push(la).drop_last() =~= class_of(a0, x));
                assert(class_of(b0, x).push(la).drop_last() =~= class_of(b0, x));
            }
        }
        assert(sorted(a0)) by {
            assert forall|i: int, j: int| 0 <= i < j < a0.len() implies ord_le(
                #[trigger] a0[i],
                #[trigger] a0[j],
            ) by {
                assert(ord_le(a[i], a[j]));
            }
        }
        assert(sorted(b0)) by {
            assert forall|i: int, j: int| 0 <= i < j < b0.len() implies ord_le(
                #[trigger] b0[i],
                #[trigger] b0[j],
            ) by {
                assert(ord_le(b[i], b[j]));
            }
        }
        lemma_stable_sort_unique(a0, b0);
    }
}

/// Sorting is idempotent: whatever `merge_sort` may return for an input that
/// is already sorted is that input.
pub proof fn lemma_merge_sort_idempotent<T: PartialOrd>(s: Seq<T>, r: Seq<T>)
    requires
        total_preorder::<T>(),
        sorted(s),
        r.len() == s.len(),
        r.to_multiset() == s.to_multiset(),
        sorted(r),
        keeps_tied_order(s, r),
    ensures
        r == s,
{
    lemma_stable_sort_unique(s, r);
}

} // verus!
