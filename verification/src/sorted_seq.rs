//! Strictly ascending sequences as the model of an ordered set.
//!
//! An ordered set is described by the sequence of its elements in ascending
//! order. Insertion and removal are stated on such sequences, independently
//! of any tree.

use crate::order::{equiv, lemma_equiv_lt, lemma_lt_equiv, lemma_lt_trans, lemma_trichotomy, lt, total_order};
use vstd::prelude::*;

verus! {

/// Each element is strictly below all later ones.
pub open spec fn strictly_sorted<T: Ord>(s: Seq<T>) -> bool {
    forall|i: int, j: int| 0 <= i < j < s.len() ==> #[trigger] lt(s[i], s[j])
}

/// Some element of `s` is equivalent to `v`.
pub open spec fn member<T: Ord>(s: Seq<T>, v: T) -> bool {
    exists|i: int| 0 <= i < s.len() && equiv(#[trigger] s[i], v)
}

/// The elements of `s` that are strictly below `v`, in their order.
#[verifier::opaque]
pub open spec fn below<T: Ord>(s: Seq<T>, v: T) -> Seq<T> {
    s.filter(|x: T| lt(x, v))
}

/// The elements of `s` that are strictly above `v`, in their order.
#[verifier::opaque]
pub open spec fn above<T: Ord>(s: Seq<T>, v: T) -> Seq<T> {
    s.filter(|x: T| lt(v, x))
}

/// The set `s` after an insertion of `v`: unchanged where an equivalent
/// element is present, else with `v` between the elements below it and
/// those above it.
pub open spec fn with_element<T: Ord>(s: Seq<T>, v: T) -> Seq<T> {
    if member(s, v) {
        s
    } else {
        below(s, v).push(v) + above(s, v)
    }
}

/// The set `s` after a removal of `v`: what is below `v`, then what is above it.
pub open spec fn without_element<T: Ord>(s: Seq<T>, v: T) -> Seq<T> {
    below(s, v) + above(s, v)
}

/// The set `s` after insertions of the elements of `vs`, in their order.
pub open spec fn with_elements<T: Ord>(s: Seq<T>, vs: Seq<T>) -> Seq<T>
    decreases vs.len(),
{
    if vs.len() == 0 {
        s
    } else {
        with_element(with_elements(s, vs.drop_last()), vs.last())
    }
}

/// The set `s` after removals of the elements of `vs`, in their order.
pub open spec fn without_elements<T: Ord>(s: Seq<T>, vs: Seq<T>) -> Seq<T>
    decreases vs.len(),
{
    if vs.len() == 0 {
        s
    } else {
        without_element(without_elements(s, vs.drop_last()), vs.last())
    }
}

/// Every element of `s` is strictly below `bound`.
pub open spec fn all_below<T: Ord>(s: Seq<T>, bound: T) -> bool {
    forall|i: int| 0 <= i < s.len() ==> lt(#[trigger] s[i], bound)
}

/// Every element of `s` is strictly above `bound`.
pub open spec fn all_above<T: Ord>(s: Seq<T>, bound: T) -> bool {
    forall|i: int| 0 <= i < s.len() ==> lt(bound, #[trigger] s[i])
}

/// Two strictly sorted parts with an element between them, above the first
/// part and below the second, make a strictly sorted whole.
pub proof fn lemma_sorted_join<T: Ord>(low: Seq<T>, mid: T, high: Seq<T>)
    requires
        total_order::<T>(),
        strictly_sorted(low),
        strictly_sorted(high),
        all_below(low, mid),
        all_above(high, mid),
    ensures
        strictly_sorted(low.push(mid) + high),
{
    let s = low.push(mid) + high;
    let n = low.len() as int;
    assert forall|i: int, j: int| 0 <= i < j < s.len() implies #[trigger] lt(s[i], s[j]) by {
        if j < n {
            assert(s[i] == low[i] && s[j] == low[j]);
            assert(lt(low[i], low[j]));
        } else if j == n {
            assert(s[i] == low[i] && s[j] == mid);
        } else if i < n {
            assert(s[i] == low[i] && s[j] == high[j - n - 1]);
            lemma_lt_trans(low[i], mid, high[j - n - 1]);
        } else if i == n {
            assert(s[i] == mid && s[j] == high[j - n - 1]);
        } else {
            assert(s[i] == high[i - n - 1] && s[j] == high[j - n - 1]);
            assert(lt(high[i - n - 1], high[j - n - 1]));
        }
    }
}

/// A strictly sorted sequence splits at any element into two strictly
/// sorted parts, the first below that element and the second above it.
pub proof fn lemma_sorted_split<T: Ord>(low: Seq<T>, mid: T, high: Seq<T>)
    requires
        strictly_sorted(low.push(mid) + high),
    ensures
        strictly_sorted(low),
        strictly_sorted(high),
        all_below(low, mid),
        all_above(high, mid),
{
    let s = low.push(mid) + high;
    let n = low.len() as int;
    assert(s[n] == mid);
    assert forall|i: int, j: int| 0 <= i < j < low.len() implies #[trigger] lt(low[i], low[j]) by {
        assert(s[i] == low[i] && s[j] == low[j]);
        assert(lt(s[i], s[j]));
    }
    assert forall|i: int, j: int| 0 <= i < j < high.len() implies #[trigger] lt(
        high[i],
        high[j],
    ) by {
        assert(s[i + n + 1] == high[i] && s[j + n + 1] == high[j]);
        assert(lt(s[i + n + 1], s[j + n + 1]));
    }
    assert forall|i: int| 0 <= i < low.len() implies lt(#[trigger] low[i], mid) by {
        assert(s[i] == low[i]);
        assert(lt(s[i], s[n]));
    }
    assert forall|i: int| 0 <= i < high.len() implies lt(mid, #[trigger] high[i]) by {
        assert(s[i + n + 1] == high[i]);
        assert(lt(s[n], s[i + n + 1]));
    }
}

/// An element above `bound` may join a part that lies above `bound`.
pub proof fn lemma_insert_keeps_above<T: Ord>(s: Seq<T>, i: int, v: T, bound: T)
    requires
        all_above(s, bound),
        lt(bound, v),
        0 <= i <= s.len(),
    ensures
        all_above(s.insert(i, v), bound),
{
    let t = s.insert(i, v);
    assert forall|k: int| 0 <= k < t.len() implies lt(bound, #[trigger] t[k]) by {
        if k < i {
            assert(t[k] == s[k]);
        } else if k > i {
            assert(t[k] == s[k - 1]);
        }
    }
}

/// An element below `bound` may join a part that lies below `bound`.
pub proof fn lemma_insert_keeps_below<T: Ord>(s: Seq<T>, i: int, v: T, bound: T)
    requires
        all_below(s, bound),
        lt(v, bound),
        0 <= i <= s.len(),
    ensures
        all_below(s.insert(i, v), bound),
{
    let t = s.insert(i, v);
    assert forall|k: int| 0 <= k < t.len() implies lt(#[trigger] t[k], bound) by {
        if k < i {
            assert(t[k] == s[k]);
        } else if k > i {
            assert(t[k] == s[k - 1]);
        }
    }
}

/// What lies above or below a bound still does so after an element has left.
pub proof fn lemma_remove_keeps_side<T: Ord>(s: Seq<T>, i: int, bound: T)
    requires
        0 <= i < s.len(),
    ensures
        all_above(s, bound) ==> all_above(s.remove(i), bound),
        all_below(s, bound) ==> all_below(s.remove(i), bound),
{
    let t = s.remove(i);
    if all_above(s, bound) {
        assert forall|k: int| 0 <= k < t.len() implies lt(bound, #[trigger] t[k]) by {
            if k < i {
                assert(t[k] == s[k]);
            } else {
                assert(t[k] == s[k + 1]);
            }
        }
    }
    if all_below(s, bound) {
        assert forall|k: int| 0 <= k < t.len() implies lt(#[trigger] t[k], bound) by {
            if k < i {
                assert(t[k] == s[k]);
            } else {
                assert(t[k] == s[k + 1]);
            }
        }
    }
}

/// Inserting into, or removing from, the part after a middle element is an
/// insertion into, or a removal from, the whole.
pub proof fn lemma_change_in_high<T>(low: Seq<T>, mid: T, high: Seq<T>, i: int, v: T)
    ensures
        0 <= i <= high.len() ==> low.push(mid) + high.insert(i, v) == (low.push(mid)
            + high).insert(low.len() + 1 + i, v),
        0 <= i < high.len() ==> low.push(mid) + high.remove(i) == (low.push(mid) + high).remove(
            low.len() + 1 + i,
        ),
{
    if 0 <= i <= high.len() {
        assert(low.push(mid) + high.insert(i, v) =~= (low.push(mid) + high).insert(
            low.len() + 1 + i,
            v,
        ));
    }
    if 0 <= i < high.len() {
        assert(low.push(mid) + high.remove(i) =~= (low.push(mid) + high).remove(
            low.len() + 1 + i,
        ));
    }
}

/// Inserting into, or removing from, the part before a middle element is an
/// insertion into, or a removal from, the whole.
pub proof fn lemma_change_in_low<T>(low: Seq<T>, mid: T, high: Seq<T>, i: int, v: T)
    ensures
        0 <= i <= low.len() ==> low.insert(i, v).push(mid) + high == (low.push(mid)
            + high).insert(i, v),
        0 <= i < low.len() ==> low.remove(i).push(mid) + high == (low.push(mid) + high).remove(i),
{
    if 0 <= i <= low.len() {
        assert(low.insert(i, v).push(mid) + high =~= (low.push(mid) + high).insert(i, v));
    }
    if 0 <= i < low.len() {
        assert(low.remove(i).push(mid) + high =~= (low.push(mid) + high).remove(i));
    }
}

/// A filter keeps a sequence whose elements all pass.
pub proof fn lemma_filter_keeps_all<T>(s: Seq<T>, pred: spec_fn(T) -> bool)
    requires
        forall|i: int| 0 <= i < s.len() ==> pred(#[trigger] s[i]),
    ensures
        s.filter(pred) == s,
    decreases s.len(),
{
    reveal(Seq::filter);
    if s.len() > 0 {
        lemma_filter_keeps_all(s.drop_last(), pred);
        assert(s.drop_last().push(s.last()) =~= s);
    }
}

/// A filter empties a sequence none of whose elements pass.
pub proof fn lemma_filter_drops_all<T>(s: Seq<T>, pred: spec_fn(T) -> bool)
    requires
        forall|i: int| 0 <= i < s.len() ==> !pred(#[trigger] s[i]),
    ensures
        s.filter(pred) == Seq::<T>::empty(),
    decreases s.len(),
{
    reveal(Seq::filter);
    if s.len() > 0 {
        lemma_filter_drops_all(s.drop_last(), pred);
    } else {
        assert(s =~= Seq::<T>::empty());
    }
}

/// A filter passes over an appended element that fails it.
pub proof fn lemma_filter_skips<T>(s: Seq<T>, x: T, pred: spec_fn(T) -> bool)
    requires
        !pred(x),
    ensures
        s.push(x).filter(pred) == s.filter(pred),
{
    reveal(Seq::filter);
    assert(s.push(x).drop_last() =~= s);
}

/// Where `low` lies below `v` and `high` above it, splitting `low + high`
/// at `v` gives the two parts back.
pub proof fn lemma_split_around<T: Ord>(low: Seq<T>, high: Seq<T>, v: T)
    requires
        total_order::<T>(),
        all_below(low, v),
        all_above(high, v),
    ensures
        below(low + high, v) == low,
        above(low + high, v) == high,
        !member(low + high, v),
{
    reveal(below);
    reveal(above);
    let is_below = |x: T| lt(x, v);
    let is_above = |x: T| lt(v, x);
    assert forall|i: int| 0 <= i < low.len() implies !is_above(#[trigger] low[i]) by {
        lemma_trichotomy(low[i], v);
    }
    assert forall|i: int| 0 <= i < high.len() implies !is_below(#[trigger] high[i]) by {
        lemma_trichotomy(high[i], v);
    }
    lemma_filter_keeps_all(low, is_below);
    lemma_filter_drops_all(high, is_below);
    lemma_filter_drops_all(low, is_above);
    lemma_filter_keeps_all(high, is_above);
    Seq::filter_distributes_over_add(low, high, is_below);
    Seq::filter_distributes_over_add(low, high, is_above);
    assert(low + Seq::<T>::empty() =~= low);
    assert(Seq::<T>::empty() + high =~= high);
    let s = low + high;
    assert forall|i: int| 0 <= i < s.len() implies !equiv(#[trigger] s[i], v) by {
        if i < low.len() {
            assert(s[i] == low[i]);
        } else {
            assert(s[i] == high[i - low.len()]);
        }
        lemma_trichotomy(s[i], v);
    }
}

/// Putting `v` between a part that lies below it and a part that lies
/// above it is the insertion of an absent element.
pub proof fn lemma_insert_between<T: Ord>(low: Seq<T>, high: Seq<T>, v: T)
    requires
        total_order::<T>(),
        all_below(low, v),
        all_above(high, v),
    ensures
        !member(low + high, v),
        low.push(v) + high == with_element(low + high, v),
{
    lemma_split_around(low, high, v);
}

/// An insertion at a position that keeps the sequence strictly sorted is
/// the insertion of an absent element.
pub proof fn lemma_insert_at<T: Ord>(s: Seq<T>, i: int, v: T)
    requires
        total_order::<T>(),
        0 <= i <= s.len(),
        strictly_sorted(s.insert(i, v)),
    ensures
        !member(s, v),
        s.insert(i, v) == with_element(s, v),
{
    let t = s.insert(i, v);
    let low = s.subrange(0, i);
    let high = s.subrange(i, s.len() as int);
    assert(t[i] == v);
    assert(all_below(low, v)) by {
        assert forall|k: int| 0 <= k < low.len() implies lt(#[trigger] low[k], v) by {
            assert(t[k] == low[k]);
            assert(lt(t[k], t[i]));
        }
    }
    assert(all_above(high, v)) by {
        assert forall|k: int| 0 <= k < high.len() implies lt(v, #[trigger] high[k]) by {
            assert(t[i + 1 + k] == high[k]);
            assert(lt(t[i], t[i + 1 + k]));
        }
    }
    assert(low + high == s) by {
        assert(low + high =~= s);
    }
    assert(t == low.push(v) + high) by {
        assert(t =~= low.push(v) + high);
    }
    lemma_insert_between(low, high, v);
}

/// Taking out an element equivalent to `v` from between a part that lies
/// below `v` and a part that lies above it is the removal of `v`.
pub proof fn lemma_remove_between<T: Ord>(low: Seq<T>, mid: T, high: Seq<T>, v: T)
    requires
        total_order::<T>(),
        all_below(low, v),
        all_above(high, v),
        equiv(mid, v),
    ensures
        member(low.push(mid) + high, v),
        !member(low + high, v),
        low + high == without_element(low.push(mid) + high, v),
{
    reveal(below);
    reveal(above);
    let s = low.push(mid) + high;
    assert(member(s, v)) by {
        assert(s[low.len() as int] == mid);
    }
    assert(!member(low + high, v) && below(low + high, v) == low && above(low + high, v) == high)
        by {
        lemma_split_around(low, high, v);
    }
    assert(below(s, v) == below(low + high, v)) by {
        let is_below = |x: T| lt(x, v);
        lemma_trichotomy(mid, v);
        lemma_filter_skips(low, mid, is_below);
        Seq::filter_distributes_over_add(low.push(mid), high, is_below);
        Seq::filter_distributes_over_add(low, high, is_below);
    }
    assert(above(s, v) == above(low + high, v)) by {
        let is_above = |x: T| lt(v, x);
        lemma_trichotomy(mid, v);
        lemma_filter_skips(low, mid, is_above);
        Seq::filter_distributes_over_add(low.push(mid), high, is_above);
        Seq::filter_distributes_over_add(low, high, is_above);
    }
}

/// Removing the element that is equivalent to `v` from a strictly sorted
/// sequence is the removal of `v`, and leaves nothing equivalent to `v`.
pub proof fn lemma_remove_at<T: Ord>(s: Seq<T>, i: int, v: T)
    requires
        total_order::<T>(),
        strictly_sorted(s),
        0 <= i < s.len(),
        equiv(s[i], v),
    ensures
        member(s, v),
        s.remove(i) == without_element(s, v),
        !member(s.remove(i), v),
{
    let low = s.subrange(0, i);
    let high = s.subrange(i + 1, s.len() as int);
    assert(all_below(low, v)) by {
        assert forall|k: int| 0 <= k < low.len() implies lt(#[trigger] low[k], v) by {
            assert(low[k] == s[k]);
            assert(lt(s[k], s[i]));
            lemma_lt_equiv(s[k], s[i], v);
        }
    }
    assert(all_above(high, v)) by {
        assert forall|k: int| 0 <= k < high.len() implies lt(v, #[trigger] high[k]) by {
            assert(high[k] == s[i + 1 + k]);
            assert(lt(s[i], s[i + 1 + k]));
            lemma_trichotomy(s[i], v);
            lemma_equiv_lt(v, s[i], s[i + 1 + k]);
        }
    }
    assert(s.remove(i) == low + high) by {
        assert(s.remove(i) =~= low + high);
    }
    assert(s == low.push(s[i]) + high) by {
        assert(s =~= low.push(s[i]) + high);
    }
    lemma_remove_between(low, s[i], high, v);
}

/// Taking one element out of a strictly sorted sequence leaves it strictly sorted.
pub proof fn lemma_remove_keeps_sorted<T: Ord>(s: Seq<T>, i: int)
    requires
        strictly_sorted(s),
        0 <= i < s.len(),
    ensures
        strictly_sorted(s.remove(i)),
{
    let r = s.remove(i);
    assert forall|a: int, b: int| 0 <= a < b < r.len() implies #[trigger] lt(r[a], r[b]) by {
        let a0 = if a < i { a } else { a + 1 };
        let b0 = if b < i { b } else { b + 1 };
        assert(r[a] == s[a0]);
        assert(r[b] == s[b0]);
        assert(lt(s[a0], s[b0]));
    }
}

/// Removing an element that is absent from a strictly sorted sequence changes nothing.
pub proof fn lemma_remove_absent<T: Ord>(s: Seq<T>, v: T)
    requires
        total_order::<T>(),
        strictly_sorted(s),
        !member(s, v),
    ensures
        without_element(s, v) == s,
{
    // The elements below `v` form a prefix: find where it ends.
    let k = first_not_below(s, v);
    lemma_first_not_below(s, v);
    let low = s.subrange(0, k);
    let high = s.subrange(k, s.len() as int);
    assert(all_above(high, v)) by {
        assert forall|j: int| 0 <= j < high.len() implies lt(v, #[trigger] high[j]) by {
            assert(high[j] == s[k + j]);
            assert(!equiv(s[k], v));
            assert(!equiv(s[k + j], v));
            lemma_trichotomy(s[k], v);
            lemma_trichotomy(s[k + j], v);
            if j > 0 {
                assert(lt(s[k], s[k + j]));
                lemma_lt_trans(v, s[k], s[k + j]);
            }
        }
    }
    assert(all_below(low, v)) by {
        assert forall|j: int| 0 <= j < low.len() implies lt(#[trigger] low[j], v) by {
            assert(low[j] == s[j]);
        }
    }
    assert(low + high == s) by {
        assert(low + high =~= s);
    }
    lemma_split_around(low, high, v);
}

/// The number of leading elements of `s` that are strictly below `v`.
pub open spec fn first_not_below<T: Ord>(s: Seq<T>, v: T) -> int
    decreases s.len(),
{
    if s.len() == 0 || !lt(s[0], v) {
        0
    } else {
        1 + first_not_below(s.subrange(1, s.len() as int), v)
    }
}

/// [`first_not_below`] counts a prefix of elements below `v` and stops at
/// the first element that is not.
pub proof fn lemma_first_not_below<T: Ord>(s: Seq<T>, v: T)
    ensures
        0 <= first_not_below(s, v) <= s.len(),
        forall|j: int| 0 <= j < first_not_below(s, v) ==> lt(#[trigger] s[j], v),
        first_not_below(s, v) < s.len() ==> !lt(s[first_not_below(s, v)], v),
    decreases s.len(),
{
    if s.len() == 0 || !lt(s[0], v) {
    } else {
        let rest = s.subrange(1, s.len() as int);
        lemma_first_not_below(rest, v);
        let k = first_not_below(rest, v);
        assert forall|j: int| 0 <= j < k + 1 implies lt(#[trigger] s[j], v) by {
            if j > 0 {
                assert(s[j] == rest[j - 1]);
            }
        }
        if k + 1 < s.len() {
            assert(s[k + 1] == rest[k]);
        }
    }
}

} // verus!
