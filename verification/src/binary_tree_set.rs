//! An ordered set kept in an unbalanced binary search tree, with an
//! insertion that walks down the tree in a loop.

use crate::binary_tree::{
    elements, grafted, lemma_graft_same, lemma_member_by_side, lemma_ordered_is_sorted,
    lemma_path_step, lemma_search, ordered, search_path, subtree_at, BinaryNode, BinaryTree,
    InOrder,
};
use crate::order::{compare, total_order};
use crate::sorted_seq::{lemma_insert_at, member, strictly_sorted, with_element};
use core::cmp::Ordering;
use vstd::prelude::*;

verus! {

/// A set of totally ordered elements.
///
/// Its view is the sequence of its elements in ascending order.
#[derive(Debug)]
pub struct BinaryTreeSet<T: Ord> {
    root: BinaryTree<T>,
}

impl<T: Ord> View for BinaryTreeSet<T> {
    type V = Seq<T>;

    closed spec fn view(&self) -> Seq<T> {
        elements(self.root)
    }
}

impl<T: Ord> Default for BinaryTreeSet<T> {
    /// The empty set.
    fn default() -> (set: Self)
        ensures
            set.wf(),
            set@ == Seq::<T>::empty(),
    {
        Self { root: None }
    }
}

/// A cursor over the elements of a [`BinaryTreeSet`] in ascending order.
#[derive(Debug)]
pub struct BinaryTreeSetIter<'a, T: Ord> {
    cursor: InOrder<'a, T>,
}

impl<'a, T: Ord> View for BinaryTreeSetIter<'a, T> {
    type V = Seq<T>;

    /// The elements that the cursor has yet to produce, in ascending order.
    closed spec fn view(&self) -> Seq<T> {
        self.cursor.remaining()
    }
}

impl<'a, T: Ord> BinaryTreeSetIter<'a, T> {
    /// Produces the next element, or `None` when all have been produced.
    pub fn next(&mut self) -> (item: Option<&'a T>)
        ensures
            match item {
                None => old(self)@.len() == 0 && final(self)@.len() == 0,
                Some(value) => {
                    &&& old(self)@.len() > 0
                    &&& *value == old(self)@[0]
                    &&& final(self)@ == old(self)@.skip(1)
                },
            },
    {
        self.cursor.next()
    }
}

impl<T: Ord> BinaryTreeSet<T> {
    /// The invariant of the set: at every node of its tree, the left
    /// subtree holds smaller values and the right subtree larger ones.
    pub closed spec fn wf(&self) -> bool {
        ordered(self.root)
    }

    /// The elements of a well-formed set ascend strictly, so none occurs twice.
    pub proof fn lemma_view_sorted(&self)
        requires
            total_order::<T>(),
            self.wf(),
        ensures
            strictly_sorted(self@),
    {
        lemma_ordered_is_sorted(self.root);
    }

    /// Adds `value` unless an equivalent element is present, in which case
    /// the set is left untouched.
    pub fn insert(&mut self, value: T)
        requires
            total_order::<T>(),
            old(self).wf(),
        ensures
            final(self).wf(),
            final(self)@ == with_element(old(self)@, value),
    {
        let ghost tree = self.root;
        let ghost mut path: Seq<bool> = Seq::empty();
        let mut current_tree = &mut self.root;

        loop
            invariant_except_break
                total_order::<T>(),
                ordered(tree),
                search_path(tree, path, value),
                *current_tree == subtree_at(tree, path),
                after_borrow(self.root) == grafted(tree, path, *final(current_tree)),
            ensures
                ordered(after_borrow(self.root)),
                member(elements(tree), value) ==> after_borrow(self.root) == tree,
                !member(elements(tree), value) ==> exists|i: int|
                    0 <= i <= elements(tree).len() && elements(after_borrow(self.root))
                        == #[trigger] elements(tree).insert(i, value),
            decreases elements(*current_tree).len(),
        {
            proof {
                lemma_search(tree, path, value);
            }
            match current_tree {
                None => {
                    *current_tree = Some(
                        Box::new(BinaryNode { value: value, left: None, right: None }),
                    );
                    break ;
                },
                Some(current_node) => {
                    let ghost node = **current_node;
                    proof {
                        lemma_member_by_side(node, value);
                    }
                    match compare(&current_node.value, &value) {
                        Ordering::Less => {
                            current_tree = &mut current_node.right;
                            proof {
                                lemma_path_step(
                                    tree,
                                    path,
                                    node,
                                    true,
                                    *final(current_tree),
                                    value,
                                );
                                path = path.push(true);
                            }
                        },
                        Ordering::Equal => {
                            proof {
                                lemma_graft_same(tree, path, value);
                            }
                            break ;
                        },
                        Ordering::Greater => {
                            current_tree = &mut current_node.left;
                            proof {
                                lemma_path_step(
                                    tree,
                                    path,
                                    node,
                                    false,
                                    *final(current_tree),
                                    value,
                                );
                                path = path.push(false);
                            }
                        },
                    }
                },
            }
        }
        proof {
            if !member(old(self)@, value) {
                let i = choose|i: int|
                    0 <= i <= old(self)@.len() && self@ == #[trigger] old(self)@.insert(i, value);
                lemma_ordered_is_sorted(self.root);
                lemma_insert_at(old(self)@, i, value);
            }
        }
    }

    /// A cursor over the elements of the set, in ascending order.
    pub fn iter(&self) -> (cursor: BinaryTreeSetIter<'_, T>)
        ensures
            cursor@ == self@,
    {
        BinaryTreeSetIter { cursor: InOrder::new(&self.root) }
    }
}

} // verus!
