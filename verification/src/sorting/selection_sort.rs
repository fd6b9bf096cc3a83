//! Selection sort of a slice, in place.

use crate::order::{is_above, le, lemma_le_trans, lemma_trichotomy, total_order};
use vstd::prelude::*;
use vstd::seq_lib::{to_multiset_contains, to_multiset_update};

verus! {

/// No element is above a later one.
pub open spec fn ascending<T: Ord>(s: Seq<T>) -> bool {
    forall|i: int, j: int| 0 <= i < j < s.len() ==> #[trigger] le(s[i], s[j])
}

/// The two sequences hold the same elements, each as often as the other.
pub open spec fn rearranged<T>(a: Seq<T>, b: Seq<T>) -> bool {
    a.to_multiset() == b.to_multiset()
}

/// `s` with the elements at `i` and `j` exchanged.
pub open spec fn swapped<T>(s: Seq<T>, i: int, j: int) -> Seq<T> {
    s.update(i, s[j]).update(j, s[i])
}

/// `<[T]>::swap`: exchanges the elements at two places of the slice, both
/// of which must lie in it.
#[verifier::external_body]
pub(crate) fn exchange<T>(xs: &mut [T], a: usize, b: usize)
    requires
        a < old(xs)@.len(),
        b < old(xs)@.len(),
    ensures
        final(xs)@ == swapped(old(xs)@, a as int, b as int),
{
    xs.swap(a, b);
}

/// Exchanging two elements rearranges a sequence.
pub proof fn lemma_swap_rearranges<T>(s: Seq<T>, i: int, j: int)
    requires
        0 <= i < s.len(),
        0 <= j < s.len(),
    ensures
        rearranged(swapped(s, i, j), s),
{
    broadcast use vstd::multiset::group_multiset_axioms;

    let once = s.update(i, s[j]);
    to_multiset_update(s, i, s[j]);
    to_multiset_update(once, j, s[i]);
    to_multiset_contains(s, s[i]);
    to_multiset_contains(s, s[j]);
    assert(s.contains(s[i]) && s.contains(s[j]));
    assert(once[j] == s[j]);
    assert(swapped(s, i, j).to_multiset() =~= s.to_multiset());
}

/// The first `sorted` elements ascend, and none of them is above an
/// element that comes after them.
pub open spec fn sorted_up_to<T: Ord>(s: Seq<T>, sorted: int) -> bool {
    forall|i: int, j: int| 0 <= i < sorted && i < j < s.len() ==> #[trigger] le(s[i], s[j])
}

/// The place of a least element of `xs` from `from` on.
pub fn smallest_from<T: Ord>(xs: &[T], from: usize) -> (smallest: usize)
    requires
        total_order::<T>(),
        from < xs@.len(),
    ensures
        from <= smallest < xs@.len(),
        forall|k: int| from <= k < xs@.len() ==> le(xs@[smallest as int], #[trigger] xs@[k]),
{
    let len = xs.len();
    let mut smallest = from;
    let mut j: usize = from + 1;
    proof {
        lemma_trichotomy(xs@[from as int], xs@[from as int]);
    }
    while j < xs.len()
        invariant
            total_order::<T>(),
            from < j <= xs@.len(),
            from <= smallest < j,
            forall|k: int| from <= k < j ==> le(xs@[smallest as int], #[trigger] xs@[k]),
        decreases xs.len() - j,
    {
        if is_above(&xs[smallest], &xs[j]) {
                proof {
                    assert forall|k: int| from <= k < j + 1 implies le(
                        xs@[j as int],
                        #[trigger] xs@[k],
                    ) by {
                        lemma_trichotomy(xs@[j as int], xs@[smallest as int]);
                        if k < j {
                            lemma_le_trans(xs@[j as int], xs@[smallest as int], xs@[k]);
                        } else {
                            lemma_trichotomy(xs@[j as int], xs@[j as int]);
                        }
                    }
                }
                smallest = j;
        } else {
            proof {
                lemma_trichotomy(xs@[smallest as int], xs@[j as int]);
            }
        }
        j += 1;
    }
    smallest
}

/// Sorts the slice in place, by moving a least element of what is left to
/// the front again and again, and hands the sorted slice back.
pub fn sort<T: Ord>(xs: &mut [T]) -> (sorted: &[T])
    requires
        total_order::<T>(),
    ensures
        ascending(final(xs)@),
        rearranged(final(xs)@, old(xs)@),
        sorted@ == final(xs)@,
{
    if xs.len() == 0 {
        xs
    } else {
        let mut i: usize = 0;
        while i < xs.len() - 1
            invariant
                total_order::<T>(),
                xs@.len() == old(xs)@.len(),
                xs@.len() > 0,
                i <= xs@.len() - 1,
                sorted_up_to(xs@, i as int),
                rearranged(xs@, old(xs)@),
            decreases xs.len() - i,
        {
            let smallest = smallest_from(xs, i);

            if i != smallest {
                let ghost before = xs@;
                exchange(xs, i, smallest);
                proof {
                    lemma_swap_rearranges(before, i as int, smallest as int);
                    lemma_select(before, i as int, smallest as int);
                }
            } else {
                proof {
                    lemma_select_in_place(xs@, i as int);
                }
            }
            i += 1;
        }

        xs
    }
}

/// Moving a least element of the unsorted part to its front extends the sorted part.
pub proof fn lemma_select<T: Ord>(s: Seq<T>, i: int, smallest: int)
    requires
        0 <= i < smallest < s.len(),
        sorted_up_to(s, i),
        forall|k: int| i <= k < s.len() ==> le(s[smallest], #[trigger] s[k]),
    ensures
        sorted_up_to(swapped(s, i, smallest), i + 1),
{
    let t = swapped(s, i, smallest);
    assert forall|a: int, b: int| 0 <= a < i + 1 && a < b < t.len() implies #[trigger] le(
        t[a],
        t[b],
    ) by {
        let b0 = if b == smallest {
            i
        } else if b == i {
            smallest
        } else {
            b
        };
        assert(t[b] == s[b0]);
        if a < i {
            assert(t[a] == s[a]);
            assert(le(s[a], s[b0]));
        } else {
            assert(t[a] == s[smallest]);
            assert(le(s[smallest], s[b0]));
        }
    }
}

/// Where a least element of the unsorted part is at its front already,
/// the sorted part is one longer.
pub proof fn lemma_select_in_place<T: Ord>(s: Seq<T>, i: int)
    requires
        0 <= i < s.len(),
        sorted_up_to(s, i),
        forall|k: int| i <= k < s.len() ==> le(s[i], #[trigger] s[k]),
    ensures
        sorted_up_to(s, i + 1),
{
    assert forall|a: int, b: int| 0 <= a < i + 1 && a < b < s.len() implies #[trigger] le(
        s[a],
        s[b],
    ) by {
        if a < i {
            assert(le(s[a], s[b]));
        }
    }
}

} // verus!
