//! An ordered set kept in an unbalanced binary search tree, with a
//! recursive insertion.

use crate::binary_tree::{
    elements, lemma_member_by_side, lemma_ordered_is_sorted, ordered, BinaryNode, BinaryTree,
    InOrder,
};
use crate::order::{compare, total_order};
use crate::sorted_seq::{
    lemma_change_in_high, lemma_change_in_low, lemma_insert_at, lemma_insert_keeps_above,
    lemma_insert_keeps_below, member, strictly_sorted, with_element,
};
use core::cmp::Ordering;
use vstd::prelude::*;

verus! {

/// A set of totally ordered elements.
///
/// Its view is the sequence of its elements in ascending order.
#[derive(Debug)]
pub struct OrderedSet<T: Ord> {
    root: BinaryTree<T>,
}

impl<T: Ord> View for OrderedSet<T> {
    type V = Seq<T>;

    closed spec fn view(&self) -> Seq<T> {
        elements(self.root)
    }
}

impl<T: Ord> Default for OrderedSet<T> {
    /// The empty set.
    fn default() -> (set: Self)
        ensures
            set.wf(),
            set@ == Seq::<T>::empty(),
    {
        Self { root: None }
    }
}

/// A cursor over the elements of an [`OrderedSet`] in ascending order.
#[derive(Debug)]
pub struct OrderedSetIter<'a, T: Ord> {
    cursor: InOrder<'a, T>,
}

impl<'a, T: Ord> View for OrderedSetIter<'a, T> {
    type V = Seq<T>;

    /// The elements that the cursor has yet to produce, in ascending order.
    closed spec fn view(&self) -> Seq<T> {
        self.cursor.remaining()
    }
}

impl<'a, T: Ord> OrderedSetIter<'a, T> {
    /// Produces the next element, or `None` when all have been produced.
    pub fn next(&mut self) -> (item: Option<&'a T>)
        ensures
            match item {
                None => old(self)@.len() == 0 && final(self)@.len() == 0,
                Some(value) => {
                    &&& old(self)@.len() > 0
                    &&& *value == old(self)@[0]
                    &&& final(self)@ == old(self)@.skip(1)
                },
            },
    {
        self.cursor.next()
    }
}

/// Inserts `value` into the subtree `node` unless an equivalent value is there.
fn insert_node<T: Ord>(node: &mut BinaryTree<T>, value: T)
    requires
        total_order::<T>(),
        ordered(*old(node)),
    ensures
        ordered(*final(node)),
        member(elements(*old(node)), value) ==> *final(node) == *old(node),
        !member(elements(*old(node)), value) ==> exists|i: int|
            0 <= i <= elements(*old(node)).len() && elements(*final(node)) == #[trigger] elements(
                *old(node),
            ).insert(i, value),
    decreases *old(node),
{
    match node {
        None => {
            *node = Some(Box::new(BinaryNode { value: value, left: None, right: None }));
            proof {
                assert(elements(*node) =~= elements(*old(node)).insert(0, value));
            }
        },
        Some(current_node) => {
            let ghost before = **current_node;
            let ghost low = elements(before.left);
            let ghost high = elements(before.right);
            proof {
                lemma_member_by_side(before, value);
            }
            match compare(&current_node.value, &value) {
                Ordering::Less => {
                    insert_node(&mut current_node.right, value);
                    proof {
                        if !member(high, value) {
                            let i = choose|i: int|
                                0 <= i <= high.len() && elements(current_node.right)
                                    == #[trigger] high.insert(i, value);
                            lemma_insert_keeps_above(high, i, value, before.value);
                            lemma_change_in_high(low, before.value, high, i, value);
                        }
                    }
                },
                Ordering::Equal => {},
                Ordering::Greater => {
                    insert_node(&mut current_node.left, value);
                    proof {
                        if !member(low, value) {
                            let i = choose|i: int|
                                0 <= i <= low.len() && elements(current_node.left)
                                    == #[trigger] low.insert(i, value);
                            lemma_insert_keeps_below(low, i, value, before.value);
                            lemma_change_in_low(low, before.value, high, i, value);
                        }
                    }
                },
            }
        },
    }
}

impl<T: Ord> OrderedSet<T> {
    /// The invariant of the set: at every node of its tree, the left
    /// subtree holds smaller values and the right subtree larger ones.
    pub closed spec fn wf(&self) -> bool {
        ordered(self.root)
    }

    /// The elements of a well-formed set ascend strictly, so none occurs twice.
    pub proof fn lemma_view_sorted(&self)
        requires
            total_order::<T>(),
            self.wf(),
        ensures
            strictly_sorted(self@),
    {
        lemma_ordered_is_sorted(self.root);
    }

    /// Adds `value` unless an equivalent element is present, in which case
    /// the set is left untouched.
    pub fn insert(&mut self, value: T)
        requires
            total_order::<T>(),
            old(self).wf(),
        ensures
            final(self).wf(),
            final(self)@ == with_element(old(self)@, value),
    {
        insert_node(&mut self.root, value);
        proof {
            if !member(old(self)@, value) {
                let i = choose|i: int|
                    0 <= i <= old(self)@.len() && self@ == #[trigger] old(self)@.insert(i, value);
                lemma_ordered_is_sorted(self.root);
                lemma_insert_at(old(self)@, i, value);
            }
        }
    }

    /// A cursor over the elements of the set, in ascending order.
    pub fn iter(&self) -> (cursor: OrderedSetIter<'_, T>)
        ensures
            cursor@ == self@,
    {
        OrderedSetIter { cursor: InOrder::new(&self.root) }
    }
}

} // verus!
