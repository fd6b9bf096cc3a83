//! Selection sort and insertion sort of vectors.

use crate::order::{is_above, le, lemma_le_trans, lemma_trichotomy, total_order};
use crate::sorting::selection_sort::{
    ascending, exchange, lemma_select, lemma_select_in_place, lemma_swap_rearranges, rearranged,
    smallest_from, sorted_up_to, swapped,
};
use vstd::prelude::*;

verus! {

/// Sorts the vector by moving a least element of what is left to the front
/// again and again.
pub fn selection_sort<T: Ord>(xs: Vec<T>) -> (sorted: Vec<T>)
    requires
        total_order::<T>(),
    ensures
        ascending(sorted@),
        rearranged(sorted@, xs@),
{
    let mut xs = xs;
    let ghost given = xs@;

    if xs.is_empty() {
        return xs
    }
    let mut i: usize = 0;
    while i < xs.len() - 1
        invariant
            total_order::<T>(),
            xs@.len() > 0,
            i <= xs@.len() - 1,
            sorted_up_to(xs@, i as int),
            rearranged(xs@, given),
        decreases xs.len() - i,
    {
        let smallest = smallest_from(xs.as_slice(), i);

        if i != smallest {
            let ghost before = xs@;
            exchange(xs.as_mut_slice(), i, smallest);
            proof {
                lemma_swap_rearranges(before, i as int, smallest as int);
                lemma_select(before, i as int, smallest as int);
            }
        } else {
            proof {
                lemma_select_in_place(xs@, i as int);
            }
        }
        i += 1;
    }

    xs
}

/// The first `sorted` elements ascend.
pub open spec fn ascending_up_to<T: Ord>(s: Seq<T>, sorted: int) -> bool {
    forall|i: int, j: int| 0 <= i < j < sorted ==> #[trigger] le(s[i], s[j])
}

/// Sorts the vector by letting each element sink, from left to right,
/// into the sorted part before it.
pub fn insertion_sort<T: Ord>(xs: Vec<T>) -> (sorted: Vec<T>)
    requires
        total_order::<T>(),
    ensures
        ascending(sorted@),
        rearranged(sorted@, xs@),
{
    let mut xs = xs;
    let ghost given = xs@;
    let mut i: usize = 1;
    while i < xs.len()
        invariant
            total_order::<T>(),
            1 <= i,
            i <= xs@.len() || xs@.len() == 0,
            xs@.len() == given.len(),
            ascending_up_to(xs@, i as int),
            rearranged(xs@, given),
        decreases xs.len() - i,
    {
        let mut j: usize = i;
        while j >= 1
            invariant
                total_order::<T>(),
                j <= i < xs@.len(),
                xs@.len() == given.len(),
                rearranged(xs@, given),
                // the part up to `i` ascends but for the sinking element at `j`
                forall|a: int, b: int| 0 <= a < b <= i && a != j && b != j ==> #[trigger] le(
                    xs@[a],
                    xs@[b],
                ),
                forall|b: int| j < b <= i ==> le(xs@[j as int], #[trigger] xs@[b]),
            ensures
                j <= i < xs@.len(),
                xs@.len() == given.len(),
                rearranged(xs@, given),
                ascending_up_to(xs@, i + 1),
            decreases j,
        {
            let ghost before = xs@;
            if is_above(&xs[j], &xs[j - 1]) {
                proof {
                    lemma_trichotomy(before[j as int], before[j - 1]);
                    lemma_sunk(before, i as int, j as int);
                }
                break ;
            } else {
                exchange(xs.as_mut_slice(), j, j - 1);
                proof {
                    lemma_swap_rearranges(before, j as int, j - 1);
                    lemma_sink(before, i as int, j as int);
                }
            }
            j -= 1;
        }
        proof {
            if j == 0 {
                lemma_sunk(xs@, i as int, 0);
            }
        }
        i += 1;
    }
    proof {
        assert(ascending(xs@)) by {
            assert forall|a: int, b: int| 0 <= a < b < xs@.len() implies #[trigger] le(
                xs@[a],
                xs@[b],
            ) by {}
        }
    }

    xs
}

/// How often `v` occurs in `s`.
pub open spec fn occurrences(s: Seq<usize>, v: usize) -> nat {
    s.to_multiset().count(v)
}

/// No number is above a later one.
pub open spec fn ascending_numbers(s: Seq<usize>) -> bool {
    forall|i: int, j: int| 0 <= i < j < s.len() ==> s[i] <= s[j]
}

/// Appending a number adds one occurrence of it and none of any other.
pub proof fn lemma_occurrences_push(s: Seq<usize>, x: usize, v: usize)
    ensures
        occurrences(s.push(x), v) == occurrences(s, v) + if x == v {
            1nat
        } else {
            0nat
        },
{
    broadcast use vstd::multiset::group_multiset_axioms;

    vstd::seq_lib::to_multiset_build(s, x);
}

/// A number occurs in a sequence at most as often as the sequence is long.
pub proof fn lemma_occurrences_bound(s: Seq<usize>, v: usize)
    ensures
        occurrences(s, v) <= s.len(),
    decreases s.len(),
{
    broadcast use vstd::multiset::group_multiset_axioms;

    if s.len() == 0 {
        s.to_multiset_ensures();
        assert(s.to_multiset().len() == 0);
        if s.to_multiset().count(v) > 0 {
            vstd::seq_lib::to_multiset_contains(s, v);
        }
    } else {
        lemma_occurrences_bound(s.drop_last(), v);
        lemma_occurrences_push(s.drop_last(), s.last(), v);
        assert(s.drop_last().push(s.last()) =~= s);
    }
}

/// The largest of the numbers, or 0 where there is none.
pub fn largest(xs: &Vec<usize>) -> (max_value: usize)
    ensures
        forall|i: int| 0 <= i < xs@.len() ==> #[trigger] xs@[i] <= max_value,
        xs@.len() > 0 ==> xs@.contains(max_value),
        xs@.len() == 0 ==> max_value == 0,
{
    let mut max_value: usize = 0;
    let mut i: usize = 0;
    while i < xs.len()
        invariant
            i <= xs@.len(),
            forall|k: int| 0 <= k < i ==> #[trigger] xs@[k] <= max_value,
            i > 0 ==> xs@.contains(max_value),
            i == 0 ==> max_value == 0,
        decreases xs.len() - i,
    {
        if i == 0 || xs[i] > max_value {
            max_value = xs[i];
            proof {
                assert(xs@[i as int] == max_value);
            }
        }
        i += 1;
    }
    max_value
}

/// Sorts numbers by counting how often each one occurs and writing the
/// numbers out again in ascending order, each as often as it was counted.
/// The table of counts has one entry for each number up to the largest.
pub fn counting_sort(xs: Vec<usize>) -> (sorted: Vec<usize>)
    requires
        forall|i: int| 0 <= i < xs@.len() ==> #[trigger] xs@[i] < usize::MAX,
    ensures
        ascending_numbers(sorted@),
        rearranged(sorted@, xs@),
{
    let max_value = largest(&xs);
    let size = max_value + 1;

    let mut count: Vec<usize> = Vec::with_capacity(size);
    let mut output: Vec<usize> = Vec::with_capacity(xs.len());

    while count.len() < size
        invariant
            count@.len() <= size,
            forall|v: int| 0 <= v < count@.len() ==> #[trigger] count@[v] == 0,
        decreases size - count.len(),
    {
        count.push(0);
    }

    proof {
        assert forall|v: usize| v < size implies #[trigger] count@[v as int] == occurrences(
            xs@.take(0),
            v,
        ) by {
            lemma_occurrences_bound(xs@.take(0), v);
        }
    }
    let mut i: usize = 0;
    while i < xs.len()
        invariant
            i <= xs@.len(),
            count@.len() == size,
            size == max_value + 1,
            forall|k: int| 0 <= k < xs@.len() ==> #[trigger] xs@[k] <= max_value,
            forall|v: usize| v < size ==> #[trigger] count@[v as int] == occurrences(xs@.take(i as int), v),
        decreases xs.len() - i,
    {
        let x = xs[i];
        proof {
            lemma_occurrences_bound(xs@.take(i as int), x);
            assert(xs@.take(i + 1) =~= xs@.take(i as int).push(x));
            assert forall|v: usize| v < size implies count@[v as int] + (if x == v {
                1nat
            } else {
                0nat
            }) == occurrences(xs@.take(i + 1), v) by {
                lemma_occurrences_push(xs@.take(i as int), x, v);
            }
        }
        count.set(x, count[x] + 1);
        i += 1;
    }
    proof {
        assert(xs@.take(i as int) =~= xs@);
    }

    let mut value: usize = 0;
    proof {
        assert forall|w: usize| occurrences(output@, w) == 0 by {
            lemma_occurrences_bound(output@, w);
        }
    }
    while value < size
        invariant
            value <= size,
            count@.len() == size,
            size == max_value + 1,
            forall|v: usize| v < size ==> #[trigger] count@[v as int] == occurrences(xs@, v),
            ascending_numbers(output@),
            forall|k: int| 0 <= k < output@.len() ==> #[trigger] output@[k] < value,
            forall|w: usize|
                #[trigger] occurrences(output@, w) == if w < value {
                    occurrences(xs@, w)
                } else {
                    0
                },
        decreases size - value,
    {
        let mut written: usize = 0;
        while written < count[value]
            invariant
                value < size,
                count@.len() == size,
                written <= count@[value as int],
                count@[value as int] == occurrences(xs@, value),
                ascending_numbers(output@),
                forall|k: int| 0 <= k < output@.len() ==> #[trigger] output@[k] <= value,
                forall|w: usize|
                    #[trigger] occurrences(output@, w) == if w < value {
                        occurrences(xs@, w)
                    } else if w == value {
                        written as nat
                    } else {
                        0
                    },
            decreases count@[value as int] - written,
        {
            let ghost before = output@;
            output.push(value);
            written += 1;
            proof {
                assert forall|w: usize| #[trigger]
                    occurrences(output@, w) == if w < value {
                        occurrences(xs@, w)
                    } else if w == value {
                        written as nat
                    } else {
                        0
                    } by {
                    lemma_occurrences_push(before, value, w);
                }
            }
        }
        value += 1;
    }
    proof {
        assert forall|w: usize| occurrences(output@, w) == occurrences(xs@, w) by {
            if w >= size {
                if occurrences(xs@, w) > 0 {
                    vstd::seq_lib::to_multiset_contains(xs@, w);
                    let k = choose|k: int| 0 <= k < xs@.len() && xs@[k] == w;
                    assert(xs@[k] <= max_value);
                }
            }
        }
        assert(output@.to_multiset() =~= xs@.to_multiset()) by {
            broadcast use vstd::multiset::group_multiset_axioms;

            assert forall|w: usize|
                output@.to_multiset().count(w) == xs@.to_multiset().count(w) by {
                assert(occurrences(output@, w) == occurrences(xs@, w));
            }
        }
    }

    output
}

/// The sinking element has come to rest: it is at the front or above its
/// left neighbour, so the part up to `i` ascends.
pub proof fn lemma_sunk<T: Ord>(s: Seq<T>, i: int, j: int)
    requires
        total_order::<T>(),
        0 <= j <= i < s.len(),
        forall|a: int, b: int| 0 <= a < b <= i && a != j && b != j ==> #[trigger] le(s[a], s[b]),
        forall|b: int| j < b <= i ==> le(s[j], #[trigger] s[b]),
        j > 0 ==> le(s[j - 1], s[j]),
    ensures
        ascending_up_to(s, i + 1),
{
    assert forall|a: int, b: int| 0 <= a < b < i + 1 implies #[trigger] le(s[a], s[b]) by {
        if b == j {
            if a < j - 1 {
                assert(le(s[a], s[j - 1]));
                lemma_le_trans(s[a], s[j - 1], s[j]);
            }
        } else if a == j {
        } else {
            assert(le(s[a], s[b]));
        }
    }
}

/// One step of sinking: the element at `j` is not above its left
/// neighbour and changes places with it.
pub proof fn lemma_sink<T: Ord>(s: Seq<T>, i: int, j: int)
    requires
        total_order::<T>(),
        1 <= j <= i < s.len(),
        forall|a: int, b: int| 0 <= a < b <= i && a != j && b != j ==> #[trigger] le(s[a], s[b]),
        forall|b: int| j < b <= i ==> le(s[j], #[trigger] s[b]),
        le(s[j], s[j - 1]),
    ensures
        forall|a: int, b: int|
            0 <= a < b <= i && a != j - 1 && b != j - 1 ==> #[trigger] le(
                swapped(s, j, j - 1)[a],
                swapped(s, j, j - 1)[b],
            ),
        forall|b: int|
            j - 1 < b <= i ==> le(swapped(s, j, j - 1)[j - 1], #[trigger] swapped(s, j, j - 1)[b]),
{
    let t = swapped(s, j, j - 1);
    assert forall|a: int, b: int| 0 <= a < b <= i && a != j - 1 && b != j - 1 implies #[trigger] le(
        t[a],
        t[b],
    ) by {
        let a0 = if a == j {
            j - 1
        } else {
            a
        };
        let b0 = if b == j {
            j - 1
        } else {
            b
        };
        assert(t[a] == s[a0] && t[b] == s[b0]);
        assert(le(s[a0], s[b0]));
    }
    assert forall|b: int| j - 1 < b <= i implies le(t[j - 1], #[trigger] t[b]) by {
        assert(t[j - 1] == s[j]);
        if b == j {
            assert(t[b] == s[j - 1]);
        } else {
            assert(t[b] == s[b]);
        }
    }
}

} // verus!
