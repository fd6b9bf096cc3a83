//! Laws of insertion into and removal from ordered sets, stated on their
//! ascending sequences.

use crate::order::{
    equiv, lemma_equiv_lt, lemma_equiv_refl, lemma_lt_equiv, lemma_trichotomy, lt, total_order,
};
use crate::sorted_seq::{
    above, all_above, all_below, below, lemma_filter_skips, lemma_remove_absent, lemma_remove_at,
    lemma_remove_between, lemma_remove_keeps_sorted, lemma_sorted_join, lemma_sorted_split,
    lemma_split_around, member, strictly_sorted, with_element, with_elements, without_element,
    without_elements,
};
use vstd::prelude::*;
use vstd::seq_lib::{to_multiset_contains, to_multiset_insert};

verus! {

/// No two elements of `vs` are equivalent.
pub open spec fn pairwise_distinct<T: Ord>(vs: Seq<T>) -> bool {
    forall|i: int, j: int| 0 <= i < j < vs.len() ==> !#[trigger] equiv(vs[i], vs[j])
}

/// What a split at `v` yields lies below `v` and above `v`.
pub proof fn lemma_parts_sides<T: Ord>(s: Seq<T>, v: T)
    ensures
        all_below(below(s, v), v),
        all_above(above(s, v), v),
{
    reveal(below);
    reveal(above);
    let is_below = |x: T| lt(x, v);
    let is_above = |x: T| lt(v, x);
    assert forall|i: int| 0 <= i < below(s, v).len() implies lt(#[trigger] below(s, v)[i], v) by {
        s.lemma_filter_pred(is_below, i);
    }
    assert forall|i: int| 0 <= i < above(s, v).len() implies lt(v, #[trigger] above(s, v)[i]) by {
        s.lemma_filter_pred(is_above, i);
    }
}

/// A strictly sorted sequence with an element equivalent to `v` at `i` is
/// the elements below `v`, that element, and the elements above `v`.
pub proof fn lemma_parts_at<T: Ord>(s: Seq<T>, i: int, v: T)
    requires
        total_order::<T>(),
        strictly_sorted(s),
        0 <= i < s.len(),
        equiv(s[i], v),
    ensures
        below(s, v) == s.subrange(0, i),
        above(s, v) == s.subrange(i + 1, s.len() as int),
        s == below(s, v).push(s[i]) + above(s, v),
{
    let low = s.subrange(0, i);
    let high = s.subrange(i + 1, s.len() as int);
    assert(s == low.push(s[i]) + high) by {
        assert(s =~= low.push(s[i]) + high);
    }
    assert(all_below(low, v)) by {
        assert forall|k: int| 0 <= k < low.len() implies lt(#[trigger] low[k], v) by {
            assert(low[k] == s[k]);
            assert(lt(s[k], s[i]));
            lemma_lt_equiv(s[k], s[i], v);
        }
    }
    assert(all_above(high, v)) by {
        assert forall|k: int| 0 <= k < high.len() implies lt(v, #[trigger] high[k]) by {
            assert(high[k] == s[i + 1 + k]);
            assert(lt(s[i], s[i + 1 + k]));
            lemma_trichotomy(s[i], v);
            lemma_equiv_lt(v, s[i], s[i + 1 + k]);
        }
    }
    lemma_filter_around(low, s[i], high, v);
}

/// The two parts of a split of a strictly sorted sequence are strictly sorted.
pub proof fn lemma_parts_sorted<T: Ord>(s: Seq<T>, v: T)
    requires
        total_order::<T>(),
        strictly_sorted(s),
    ensures
        strictly_sorted(below(s, v)),
        strictly_sorted(above(s, v)),
{
    if member(s, v) {
        let i = choose|i: int| 0 <= i < s.len() && equiv(#[trigger] s[i], v);
        lemma_parts_at(s, i, v);
        lemma_sorted_split(below(s, v), s[i], above(s, v));
    } else {
        lemma_remove_absent(s, v);
        lemma_sorted_halves(below(s, v), above(s, v));
    }
}

/// Both halves of a strictly sorted sequence are strictly sorted.
pub proof fn lemma_sorted_halves<T: Ord>(low: Seq<T>, high: Seq<T>)
    requires
        strictly_sorted(low + high),
    ensures
        strictly_sorted(low),
        strictly_sorted(high),
{
    let s = low + high;
    let n = low.len() as int;
    assert forall|i: int, j: int| 0 <= i < j < low.len() implies #[trigger] lt(low[i], low[j]) by {
        assert(s[i] == low[i] && s[j] == low[j]);
        assert(lt(s[i], s[j]));
    }
    assert forall|i: int, j: int| 0 <= i < j < high.len() implies #[trigger] lt(
        high[i],
        high[j],
    ) by {
        assert(s[n + i] == high[i] && s[n + j] == high[j]);
        assert(lt(s[n + i], s[n + j]));
    }
}

/// Splitting `low`, an element equivalent to `v`, and `high` at `v` gives
/// `low` and `high` where the first lies below `v` and the second above it.
proof fn lemma_filter_around<T: Ord>(low: Seq<T>, mid: T, high: Seq<T>, v: T)
    requires
        total_order::<T>(),
        all_below(low, v),
        all_above(high, v),
        equiv(mid, v),
    ensures
        below(low.push(mid) + high, v) == low,
        above(low.push(mid) + high, v) == high,
{
    reveal(below);
    reveal(above);
    lemma_remove_between(low, mid, high, v);
    lemma_split_around(low, high, v);
    let s = low.push(mid) + high;
    let is_below = |x: T| lt(x, v);
    let is_above = |x: T| lt(v, x);
    lemma_trichotomy(mid, v);
    assert(below(s, v) == low) by {
        lemma_filter_skips(low, mid, is_below);
        Seq::filter_distributes_over_add(low.push(mid), high, is_below);
        Seq::filter_distributes_over_add(low, high, is_below);
    }
    assert(above(s, v) == high) by {
        lemma_filter_skips(low, mid, is_above);
        Seq::filter_distributes_over_add(low.push(mid), high, is_above);
        Seq::filter_distributes_over_add(low, high, is_above);
    }
}


/// Insertion keeps a set strictly sorted. An absent element joins at the
/// one place that does so; the set then holds it and is one longer.
pub proof fn lemma_insert_sorted<T: Ord>(s: Seq<T>, v: T)
    requires
        total_order::<T>(),
        strictly_sorted(s),
    ensures
        strictly_sorted(with_element(s, v)),
        member(with_element(s, v), v),
        !member(s, v) ==> with_element(s, v) == s.insert(below(s, v).len() as int, v),
        !member(s, v) ==> with_element(s, v).len() == s.len() + 1,
{
    if !member(s, v) {
        let low = below(s, v);
        let high = above(s, v);
        assert(strictly_sorted(low.push(v) + high)) by {
            lemma_parts_sorted(s, v);
            lemma_parts_sides(s, v);
            lemma_sorted_join(low, v, high);
        }
        assert(low + high == s) by {
            lemma_remove_absent(s, v);
        }
        assert(low.push(v) + high == s.insert(low.len() as int, v)) by {
            lemma_insert_in_middle(low, high, v);
        }
        assert(member(low.push(v) + high, v)) by {
            lemma_equiv_refl(v);
            assert(equiv((low.push(v) + high)[low.len() as int], v));
        }
    }
}

/// Putting an element between two parts inserts it into their concatenation.
proof fn lemma_insert_in_middle<T>(low: Seq<T>, high: Seq<T>, v: T)
    ensures
        low.push(v) + high == (low + high).insert(low.len() as int, v),
{
    assert(low.push(v) + high =~= (low + high).insert(low.len() as int, v));
}

/// Removal keeps a set strictly sorted and leaves nothing equivalent to
/// the removed element. A set that held the element is one shorter.
pub proof fn lemma_remove_sorted<T: Ord>(s: Seq<T>, v: T)
    requires
        total_order::<T>(),
        strictly_sorted(s),
    ensures
        strictly_sorted(without_element(s, v)),
        !member(without_element(s, v), v),
        !member(s, v) ==> without_element(s, v) == s,
        member(s, v) ==> without_element(s, v).len() + 1 == s.len(),
{
    if member(s, v) {
        let i = choose|i: int| 0 <= i < s.len() && equiv(#[trigger] s[i], v);
        lemma_remove_at(s, i, v);
        lemma_remove_keeps_sorted(s, i);
    } else {
        lemma_remove_absent(s, v);
    }
}

/// Inserting an element that is present changes nothing, so inserting
/// the same element twice is as good as inserting it once.
pub proof fn lemma_insert_idempotent<T: Ord>(s: Seq<T>, v: T)
    requires
        total_order::<T>(),
        strictly_sorted(s),
    ensures
        member(s, v) ==> with_element(s, v) == s,
        with_element(with_element(s, v), v) == with_element(s, v),
{
    lemma_insert_sorted(s, v);
}

/// Removing an element of the set and inserting it again restores the set.
pub proof fn lemma_remove_then_insert<T: Ord>(s: Seq<T>, v: T)
    requires
        total_order::<T>(),
        strictly_sorted(s),
        s.contains(v),
    ensures
        !member(without_element(s, v), v),
        with_element(without_element(s, v), v) == s,
{
    let i = choose|i: int| 0 <= i < s.len() && s[i] == v;
    lemma_equiv_refl(v);
    lemma_parts_at(s, i, v);
    lemma_parts_sides(s, v);
    let low = below(s, v);
    let high = above(s, v);
    lemma_split_around(low, high, v);
}

/// What a set holds after insertions was in it before or is one of the
/// inserted values.
pub proof fn lemma_inserted_come_from<T: Ord>(s: Seq<T>, vs: Seq<T>, x: T)
    requires
        with_elements(s, vs).contains(x),
    ensures
        s.contains(x) || vs.contains(x),
    decreases vs.len(),
{
    reveal(below);
    reveal(above);
    if vs.len() > 0 {
        let prior = with_elements(s, vs.drop_last());
        let v = vs.last();
        let grown = with_element(prior, v);
        let i = choose|i: int| 0 <= i < grown.len() && grown[i] == x;
        if member(prior, v) || prior.contains(x) {
            if prior.contains(x) {
                lemma_inserted_come_from(s, vs.drop_last(), x);
                if vs.drop_last().contains(x) {
                    let k = choose|k: int| 0 <= k < vs.drop_last().len() && vs.drop_last()[k] == x;
                    assert(vs[k] == x);
                }
            }
        } else {
            let low = below(prior, v);
            let high = above(prior, v);
            let is_below = |y: T| lt(y, v);
            let is_above = |y: T| lt(v, y);
            if i < low.len() {
                assert(low[i] == x);
                assert(low.contains(x));
                prior.lemma_filter_contains_rev(is_below, x);
            } else if i > low.len() {
                assert(high[i - low.len() - 1] == x);
                assert(high.contains(x));
                prior.lemma_filter_contains_rev(is_above, x);
            } else {
                assert(vs[vs.len() - 1] == x);
            }
        }
    }
}

/// What a set still holds after removals was in it before and is
/// equivalent to none of the removed values.
pub proof fn lemma_removed_are_gone<T: Ord>(s: Seq<T>, ws: Seq<T>, x: T)
    requires
        total_order::<T>(),
        without_elements(s, ws).contains(x),
    ensures
        s.contains(x),
        forall|j: int| 0 <= j < ws.len() ==> !equiv(x, #[trigger] ws[j]),
    decreases ws.len(),
{
    reveal(below);
    reveal(above);
    if ws.len() > 0 {
        let prior = without_elements(s, ws.drop_last());
        let w = ws.last();
        let low = below(prior, w);
        let high = above(prior, w);
        let is_below = |y: T| lt(y, w);
        let is_above = |y: T| lt(w, y);
        let t = low + high;
        let i = choose|i: int| 0 <= i < t.len() && t[i] == x;
        if i < low.len() {
            assert(low[i] == x);
            assert(low.contains(x));
            prior.lemma_filter_contains_rev(is_below, x);
        } else {
            assert(high[i - low.len()] == x);
            assert(high.contains(x));
            prior.lemma_filter_contains_rev(is_above, x);
        }
        lemma_trichotomy(x, w);
        lemma_removed_are_gone(s, ws.drop_last(), x);
        assert forall|j: int| 0 <= j < ws.len() implies !equiv(x, #[trigger] ws[j]) by {
            if j < ws.len() - 1 {
                assert(ws.drop_last()[j] == ws[j]);
            }
        }
    }
}

/// Insertions keep a set strictly sorted.
pub proof fn lemma_inserts_sorted<T: Ord>(s: Seq<T>, vs: Seq<T>)
    requires
        total_order::<T>(),
        strictly_sorted(s),
    ensures
        strictly_sorted(with_elements(s, vs)),
    decreases vs.len(),
{
    if vs.len() > 0 {
        lemma_inserts_sorted(s, vs.drop_last());
        lemma_insert_sorted(with_elements(s, vs.drop_last()), vs.last());
    }
}

/// Inserting pairwise distinct values into the empty set gives a set of
/// as many elements: the values themselves, in ascending order.
pub proof fn lemma_distinct_inserts<T: Ord>(vs: Seq<T>)
    requires
        total_order::<T>(),
        pairwise_distinct(vs),
    ensures
        with_elements(Seq::<T>::empty(), vs).len() == vs.len(),
        strictly_sorted(with_elements(Seq::<T>::empty(), vs)),
        with_elements(Seq::<T>::empty(), vs).to_multiset() == vs.to_multiset(),
    decreases vs.len(),
{
    let nothing = Seq::<T>::empty();
    if vs.len() == 0 {
        assert(vs =~= nothing);
    } else {
        let front = vs.drop_last();
        let v = vs.last();
        let prior = with_elements(nothing, front);
        assert(pairwise_distinct(front)) by {
            assert forall|i: int, j: int| 0 <= i < j < front.len() implies !#[trigger] equiv(
                front[i],
                front[j],
            ) by {
                assert(!equiv(vs[i], vs[j]));
            }
        }
        lemma_distinct_inserts(front);
        assert(!member(prior, v)) by {
            assert forall|i: int| 0 <= i < prior.len() implies !equiv(#[trigger] prior[i], v) by {
                assert(prior.contains(prior[i]));
                lemma_inserted_come_from(nothing, front, prior[i]);
                let k = choose|k: int| 0 <= k < front.len() && front[k] == prior[i];
                assert(!equiv(vs[k], vs[vs.len() - 1]));
            }
        }
        lemma_insert_sorted(prior, v);
        to_multiset_insert(prior, below(prior, v).len() as int, v);
        assert(vs.to_multiset() == front.to_multiset().insert(v)) by {
            assert(vs =~= front.insert(front.len() as int, v));
            to_multiset_insert(front, front.len() as int, v);
        }
    }
}

/// Removing every value that was inserted into the empty set, in any
/// order, leaves the empty set.
pub proof fn lemma_remove_all_inserted<T: Ord>(vs: Seq<T>, ws: Seq<T>)
    requires
        total_order::<T>(),
        ws.to_multiset() == vs.to_multiset(),
    ensures
        without_elements(with_elements(Seq::<T>::empty(), vs), ws) == Seq::<T>::empty(),
{
    let nothing = Seq::<T>::empty();
    let full = with_elements(nothing, vs);
    let rest = without_elements(full, ws);
    if rest.len() > 0 {
        let x = rest[0];
        assert(rest.contains(x));
        lemma_removed_are_gone(full, ws, x);
        lemma_inserted_come_from(nothing, vs, x);
        to_multiset_contains(vs, x);
        to_multiset_contains(ws, x);
        let j = choose|j: int| 0 <= j < ws.len() && ws[j] == x;
        lemma_equiv_refl(x);
        assert(false);
    }
    assert(rest =~= nothing);
}

} // verus!
