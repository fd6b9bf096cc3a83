//! An ordered set kept in an AVL tree.

use crate::avl_tree_set::tree::{
    avl_shaped, balanced, elements, height_of, heights_correct, higher, least_size,
    lemma_every_node, lemma_height_at_most_len, lemma_ordered_is_sorted, lemma_rebuilt,
    lemma_size_for_height, lemma_values_of_nodes, nodes, ordered, subtree, AvlNode, AvlTree,
};
use crate::order::{compare, equiv, lemma_lt_trans, lemma_trichotomy, lt, total_order};
use crate::sorted_seq::{
    all_above, all_below, lemma_change_in_high, lemma_change_in_low, lemma_insert_keeps_above,
    lemma_insert_at, lemma_insert_keeps_below, lemma_remove_absent, lemma_remove_at,
    lemma_remove_keeps_side, member, strictly_sorted, with_element, with_elements,
    without_element,
};
use core::cmp::Ordering;
use vstd::prelude::*;

verus! {

/// A set of totally ordered elements, kept in an AVL tree.
///
/// Its view is the sequence of its elements in ascending order.
#[derive(Debug, PartialEq)]
pub struct AvlTreeSet<T: Ord> {
    root: AvlTree<T>,
}

impl<T: Ord> View for AvlTreeSet<T> {
    type V = Seq<T>;

    closed spec fn view(&self) -> Seq<T> {
        elements(self.root)
    }
}

impl<T: Ord> Default for AvlTreeSet<T> {
    /// The empty set.
    fn default() -> (set: Self)
        ensures
            set.wf(),
            set@ == Seq::<T>::empty(),
    {
        Self { root: None }
    }
}

impl<T: Ord> AvlTreeSet<T> {
    /// At every node, the left subtree holds smaller values and the right
    /// subtree larger ones.
    pub closed spec fn is_ordered(&self) -> bool {
        ordered(self.root)
    }

    /// At every node, the heights of the two subtrees differ by at most one.
    pub closed spec fn is_balanced(&self) -> bool {
        balanced(self.root)
    }

    /// Every node caches one more than the larger height of its subtrees.
    pub closed spec fn has_correct_heights(&self) -> bool {
        heights_correct(self.root)
    }

    /// The nodes of the tree in ascending order of their values.
    pub closed spec fn nodes(&self) -> Seq<AvlNode<T>> {
        nodes(self.root)
    }

    /// The height of the tree: 0 for the empty set.
    pub closed spec fn height(&self) -> nat {
        height_of(self.root)
    }

    /// The invariant of the set, which every operation keeps: the tree is
    /// ordered, balanced and correctly heighted, and its size fits a `usize`.
    pub open spec fn wf(&self) -> bool {
        &&& self.is_ordered()
        &&& self.is_balanced()
        &&& self.has_correct_heights()
        &&& self@.len() <= usize::MAX
    }

    /// The elements of a well-formed set ascend strictly, so none occurs twice.
    pub proof fn lemma_view_sorted(&self)
        requires
            total_order::<T>(),
            self.wf(),
        ensures
            strictly_sorted(self@),
    {
        lemma_ordered_is_sorted(self.root);
    }

    /// A well-formed set is no higher than it has elements, and only the
    /// empty set has height 0.
    pub proof fn lemma_height_bound(&self)
        requires
            self.wf(),
        ensures
            self.height() <= self@.len(),
            self.height() == 0 <==> self@.len() == 0,
    {
        lemma_height_at_most_len(self.root);
    }

    /// The height of a well-formed set grows with the logarithm of its
    /// size only: a set of a given height has at least the least number of
    /// elements that an AVL tree of that height can have.
    pub proof fn lemma_height_logarithmic(&self)
        requires
            self.wf(),
        ensures
            least_size(self.height()) <= self@.len(),
    {
        lemma_size_for_height(self.root);
    }

    /// Every node of a well-formed set lies between its two subtrees, has
    /// children that differ in height by at most one, and caches one more
    /// than the larger height of its children.
    pub proof fn lemma_node_invariants(&self, i: int)
        requires
            self.wf(),
            0 <= i < self.nodes().len(),
        ensures
            all_below(elements(self.nodes()[i].left), self.nodes()[i].value),
            all_above(elements(self.nodes()[i].right), self.nodes()[i].value),
            -1 <= self.nodes()[i].factor() <= 1,
            self.nodes()[i].height == 1 + higher(
                height_of(self.nodes()[i].left),
                height_of(self.nodes()[i].right),
            ),
    {
        lemma_every_node(self.root, i);
    }

    /// Adds `value` unless an equivalent element is present. Returns
    /// whether the set grew; a set that did not grow is left untouched.
    pub fn insert(&mut self, value: T) -> (inserted: bool)
        requires
            total_order::<T>(),
            old(self).wf(),
            old(self)@.len() < usize::MAX,
        ensures
            final(self).wf(),
            inserted == !member(old(self)@, value),
            final(self)@ == with_element(old(self)@, value),
            final(self)@.len() == old(self)@.len() + if inserted { 1int } else { 0int },
            !inserted ==> *final(self) == *old(self),
    {
        let inserted = insert_into(&mut self.root, value);
        proof {
            if inserted {
                let i = choose|i: int|
                    0 <= i <= old(self)@.len() && self@ == #[trigger] old(self)@.insert(i, value);
                lemma_ordered_is_sorted(self.root);
                lemma_insert_at(old(self)@, i, value);
            }
        }
        inserted
    }

    /// Removes the element equivalent to `value`, if there is one. Returns
    /// whether the set shrank; a set that did not shrink is left untouched.
    pub fn remove(&mut self, value: &T) -> (removed: bool)
        requires
            total_order::<T>(),
            old(self).wf(),
        ensures
            final(self).wf(),
            removed == member(old(self)@, *value),
            final(self)@ == without_element(old(self)@, *value),
            final(self)@.len() == old(self)@.len() - if removed { 1int } else { 0int },
            !removed ==> *final(self) == *old(self),
    {
        let removed = remove_from(&mut self.root, value);
        proof {
            lemma_ordered_is_sorted(old(self).root);
            if removed {
                let i = choose|i: int|
                    0 <= i < old(self)@.len() && equiv(old(self)@[i], *value) && self@
                        == #[trigger] old(self)@.remove(i);
                lemma_remove_at(old(self)@, i, *value);
            } else {
                lemma_remove_absent(old(self)@, *value);
            }
        }
        removed
    }

    /// Whether an element equivalent to `value` is in the set.
    pub fn contains(&self, value: &T) -> (found: bool)
        requires
            total_order::<T>(),
            self.wf(),
        ensures
            found == member(self@, *value),
    {
        let mut current = &self.root;
        loop
            invariant
                total_order::<T>(),
                ordered(*current),
                member(self@, *value) == member(elements(*current), *value),
            decreases elements(*current).len(),
        {
            match current {
                None => {
                    return false;
                },
                Some(node) => {
                    proof {
                        lemma_member_by_side(**node, *value);
                    }
                    match compare(&node.value, value) {
                        Ordering::Equal => {
                            return true;
                        },
                        Ordering::Less => {
                            current = &node.right;
                        },
                        Ordering::Greater => {
                            current = &node.left;
                        },
                    }
                },
            }
        }
    }

    /// A cursor over the nodes of the set, in ascending order of their values.
    pub fn node_iter(&self) -> (cursor: AvlTreeSetNodeIter<'_, T>)
        ensures
            cursor.remaining() == self.nodes(),
    {
        let cursor = AvlTreeSetNodeIter { prev_nodes: Vec::new(), current_tree: &self.root };
        proof {
            assert(cursor.remaining() =~= nodes(self.root));
        }
        cursor
    }

    /// A cursor over the elements of the set, in ascending order.
    pub fn iter(&self) -> (cursor: AvlTreeSetIter<'_, T>)
        ensures
            cursor@ == self@,
    {
        proof {
            lemma_values_of_nodes(self.root);
        }
        AvlTreeSetIter { nodes: self.node_iter() }
    }

    /// The number of elements, counted by a full walk.
    pub fn len(&self) -> (count: usize)
        requires
            self.wf(),
        ensures
            count == self@.len(),
    {
        let mut cursor = self.node_iter();
        let mut count: usize = 0;
        proof {
            lemma_values_of_nodes(self.root);
        }
        loop
            invariant
                count + cursor.remaining().len() == self@.len(),
                self@.len() <= usize::MAX,
            decreases cursor.remaining().len(),
        {
            match cursor.next() {
                None => {
                    return count;
                },
                Some(_) => {
                    count = count + 1;
                },
            }
        }
    }

    /// The set of the given values: each is inserted in turn, so of
    /// equivalent values the first one stays.
    pub fn from_iter(values: Vec<T>) -> (set: Self)
        requires
            total_order::<T>(),
        ensures
            set.wf(),
            set@ == with_elements(Seq::<T>::empty(), values@),
    {
        let mut set = Self::default();
        let ghost all = values@;
        proof {
            assert(values@.len() == values.len());
        }
        for value in it: values.into_iter()
            invariant
                total_order::<T>(),
                it.seq() == all,
                all.len() <= usize::MAX,
                set.wf(),
                set@.len() <= it.index(),
                set@ == with_elements(Seq::<T>::empty(), all.take(it.index() as int)),
        {
            proof {
                assert(all.take(it.index() + 1).drop_last() =~= all.take(it.index() as int));
            }
            set.insert(value);
        }
        proof {
            assert(all.take(all.len() as int) =~= all);
        }
        set
    }

    /// Empties the set.
    pub fn clear(&mut self)
        ensures
            final(self).wf(),
            final(self)@ == Seq::<T>::empty(),
    {
        self.root = None;
    }

    /// Whether the set has no element.
    pub fn is_empty(&self) -> (empty: bool)
        ensures
            empty == (self@.len() == 0),
    {
        self.root.is_none()
    }
}

/// The nodes that an in-order walk still owes for the ancestors on `stack`:
/// for each of them, from the last pushed to the first, the ancestor
/// itself and then its right subtree.
pub open spec fn pending<T: Ord>(stack: Seq<&AvlNode<T>>) -> Seq<AvlNode<T>>
    decreases stack.len(),
{
    if stack.len() == 0 {
        Seq::empty()
    } else {
        (seq![*stack.last()] + nodes(stack.last().right)) + pending(stack.drop_last())
    }
}

/// A cursor over the nodes of a set in ascending order of their values.
///
/// It holds the subtree that is walked next and a stack of the ancestors
/// whose left subtrees are being walked.
#[derive(Debug)]
pub struct AvlTreeSetNodeIter<'a, T: Ord> {
    prev_nodes: Vec<&'a AvlNode<T>>,
    current_tree: &'a AvlTree<T>,
}

impl<'a, T: Ord> AvlTreeSetNodeIter<'a, T> {
    /// The nodes that the cursor has yet to produce, in the order in which
    /// it produces them.
    pub closed spec fn remaining(&self) -> Seq<AvlNode<T>> {
        nodes(*self.current_tree) + pending(self.prev_nodes@)
    }

    /// Produces the next node, or `None` when the walk is over.
    pub fn next(&mut self) -> (item: Option<&'a AvlNode<T>>)
        ensures
            match item {
                None => old(self).remaining().len() == 0 && final(self).remaining().len() == 0,
                Some(node) => {
                    &&& old(self).remaining().len() > 0
                    &&& *node == old(self).remaining()[0]
                    &&& final(self).remaining() == old(self).remaining().skip(1)
                },
            },
    {
        loop
            invariant
                self.remaining() == old(self).remaining(),
            decreases nodes(*self.current_tree).len(),
        {
            match self.current_tree {
                None => {
                    let ghost stack = self.prev_nodes@;
                    match self.prev_nodes.pop() {
                        None => {
                            return None;
                        },
                        Some(prev_node) => {
                            self.current_tree = &prev_node.right;
                            proof {
                                assert(stack.drop_last() == self.prev_nodes@);
                                assert(self.remaining() =~= old(self).remaining().skip(1));
                            }
                            return Some(prev_node);
                        },
                    }
                },
                Some(current_node) => {
                    let ghost stack = self.prev_nodes@;
                    let ghost before = nodes(*self.current_tree);
                    if current_node.left.is_some() {
                        self.prev_nodes.push(&**current_node);
                        self.current_tree = &current_node.left;
                        proof {
                            assert(self.prev_nodes@.drop_last() =~= stack);
                            assert(self.remaining() =~= before + pending(stack));
                        }
                        continue ;
                    }
                    self.current_tree = &current_node.right;
                    proof {
                        assert(nodes(current_node.left) =~= Seq::empty());
                        assert(self.remaining() =~= old(self).remaining().skip(1));
                    }
                    return Some(&**current_node);
                },
            }
        }
    }
}

/// A cursor over the elements of a set in ascending order.
#[derive(Debug)]
pub struct AvlTreeSetIter<'a, T: Ord> {
    nodes: AvlTreeSetNodeIter<'a, T>,
}

impl<'a, T: Ord> View for AvlTreeSetIter<'a, T> {
    type V = Seq<T>;

    /// The elements that the cursor has yet to produce, in ascending order.
    closed spec fn view(&self) -> Seq<T> {
        self.nodes.remaining().map_values(|node: AvlNode<T>| node.value)
    }
}

impl<'a, T: Ord> AvlTreeSetIter<'a, T> {
    /// Produces the next element, or `None` when all have been produced.
    pub fn next(&mut self) -> (item: Option<&'a T>)
        ensures
            match item {
                None => old(self)@.len() == 0 && final(self)@.len() == 0,
                Some(value) => {
                    &&& old(self)@.len() > 0
                    &&& *value == old(self)@[0]
                    &&& final(self)@ == old(self)@.skip(1)
                },
            },
    {
        match self.nodes.next() {
            None => None,
            Some(node) => {
                proof {
                    let value_of = |node: AvlNode<T>| node.value;
                    assert(self@ =~= old(self)@.skip(1));
                }
                Some(&node.value)
            },
        }
    }
}

/// Nothing in a part that lies wholly below or wholly above `v` is equivalent to `v`.
proof fn lemma_outside_not_member<T: Ord>(s: Seq<T>, v: T)
    requires
        total_order::<T>(),
        all_below(s, v) || all_above(s, v),
    ensures
        !member(s, v),
{
    assert forall|i: int| 0 <= i < s.len() implies !equiv(#[trigger] s[i], v) by {
        lemma_trichotomy(s[i], v);
    }
}

/// Whether `v` is in a node's subtree is decided by the node's value and,
/// where that differs, by the one child on `v`'s side.
proof fn lemma_member_by_side<T: Ord>(node: AvlNode<T>, v: T)
    requires
        total_order::<T>(),
        ordered(subtree(node)),
    ensures
        equiv(node.value, v) ==> member(node.in_order(), v),
        lt(v, node.value) ==> member(node.in_order(), v) == member(elements(node.left), v),
        lt(node.value, v) ==> member(node.in_order(), v) == member(elements(node.right), v),
{
    let low = elements(node.left);
    let high = elements(node.right);
    let s = node.in_order();
    let n = low.len() as int;
    assert(s[n] == node.value);
    lemma_trichotomy(node.value, v);
    if lt(v, node.value) {
        assert(all_above(high, v)) by {
            assert forall|i: int| 0 <= i < high.len() implies lt(v, #[trigger] high[i]) by {
                lemma_lt_trans(v, node.value, high[i]);
            }
        }
        lemma_outside_not_member(high, v);
        if member(low, v) {
            let i = choose|i: int| 0 <= i < low.len() && equiv(#[trigger] low[i], v);
            assert(s[i] == low[i]);
        }
        if member(s, v) {
            let i = choose|i: int| 0 <= i < s.len() && equiv(#[trigger] s[i], v);
            if i < n {
                assert(s[i] == low[i]);
            } else if i > n {
                assert(s[i] == high[i - n - 1]);
            }
        }
    } else if lt(node.value, v) {
        assert(all_below(low, v)) by {
            assert forall|i: int| 0 <= i < low.len() implies lt(#[trigger] low[i], v) by {
                lemma_lt_trans(low[i], node.value, v);
            }
        }
        lemma_outside_not_member(low, v);
        if member(high, v) {
            let i = choose|i: int| 0 <= i < high.len() && equiv(#[trigger] high[i], v);
            assert(s[i + n + 1] == high[i]);
        }
        if member(s, v) {
            let i = choose|i: int| 0 <= i < s.len() && equiv(#[trigger] s[i], v);
            if i < n {
                assert(s[i] == low[i]);
            } else if i > n {
                assert(s[i] == high[i - n - 1]);
            }
        }
    }
}

/// Inserts `value` into the subtree `tree`, rebalancing on the way back up.
fn insert_into<T: Ord>(tree: &mut AvlTree<T>, value: T) -> (inserted: bool)
    requires
        total_order::<T>(),
        ordered(*old(tree)),
        avl_shaped(*old(tree)),
        elements(*old(tree)).len() < usize::MAX,
    ensures
        ordered(*final(tree)),
        avl_shaped(*final(tree)),
        inserted == !member(elements(*old(tree)), value),
        !inserted ==> *final(tree) == *old(tree),
        inserted ==> exists|i: int|
            0 <= i <= elements(*old(tree)).len() && elements(*final(tree)) == #[trigger] elements(
                *old(tree),
            ).insert(i, value),
        height_of(*final(tree)) == height_of(*old(tree)) || (inserted && height_of(*final(tree))
            == height_of(*old(tree)) + 1),
    decreases *old(tree),
{
    match tree {
        None => {
            *tree = Some(Box::new(AvlNode { value, left: None, right: None, height: 1 }));
            proof {
                assert(elements(*tree) =~= elements(*old(tree)).insert(0, value));
            }
            true
        },
        Some(node) => {
            let ghost before = **node;
            proof {
                lemma_member_by_side(before, value);
                lemma_height_at_most_len(before.left);
                lemma_height_at_most_len(before.right);
            }
            match compare(&node.value, &value) {
                Ordering::Equal => false,
                Ordering::Less => {
                    let inserted = insert_into(&mut node.right, value);
                    if inserted {
                        proof {
                            lemma_grown_right(before, node.right, value);
                        }
                        node.update_height();
                        node.rebalance();
                    }
                    inserted
                },
                Ordering::Greater => {
                    let inserted = insert_into(&mut node.left, value);
                    if inserted {
                        proof {
                            lemma_grown_left(before, node.left, value);
                        }
                        node.update_height();
                        node.rebalance();
                    }
                    inserted
                },
            }
        },
    }
}

/// What holds of a node after an insertion into its right subtree, once
/// its height is recomputed and it is rebalanced.
proof fn lemma_grown_right<T: Ord>(before: AvlNode<T>, right: AvlTree<T>, value: T)
    requires
        total_order::<T>(),
        ordered(subtree(before)),
        avl_shaped(subtree(before)),
        before.in_order().len() < usize::MAX,
        lt(before.value, value),
        ordered(right),
        avl_shaped(right),
        exists|i: int|
            0 <= i <= elements(before.right).len() && elements(right) == #[trigger] elements(
                before.right,
            ).insert(i, value),
        height_of(right) == height_of(before.right) || height_of(right) == height_of(before.right)
            + 1,
    ensures
        higher(height_of(before.left), height_of(right)) < usize::MAX,
        -2 <= before.with_right(right).factor() <= 2,
        rebuilt_like(before, before.with_right(right)),
        exists|i: int|
            0 <= i <= before.in_order().len() && before.with_right(right).in_order()
                == #[trigger] before.in_order().insert(i, value),
{
    let grown = before.with_right(right);
    let low = elements(before.left);
    let high = elements(before.right);
    let i = choose|i: int| 0 <= i <= high.len() && elements(right) == #[trigger] high.insert(i, value);
    lemma_height_at_most_len(before.left);
    lemma_height_at_most_len(right);
    lemma_insert_keeps_above(high, i, value, before.value);
    lemma_change_in_high(low, before.value, high, i, value);
    assert(grown.in_order() == before.in_order().insert(low.len() + 1 + i, value));
    lemma_rebuilt(grown);
}

/// What holds of a node after an insertion into its left subtree, once
/// its height is recomputed and it is rebalanced.
proof fn lemma_grown_left<T: Ord>(before: AvlNode<T>, left: AvlTree<T>, value: T)
    requires
        total_order::<T>(),
        ordered(subtree(before)),
        avl_shaped(subtree(before)),
        before.in_order().len() < usize::MAX,
        lt(value, before.value),
        ordered(left),
        avl_shaped(left),
        exists|i: int|
            0 <= i <= elements(before.left).len() && elements(left) == #[trigger] elements(
                before.left,
            ).insert(i, value),
        height_of(left) == height_of(before.left) || height_of(left) == height_of(before.left) + 1,
    ensures
        higher(height_of(left), height_of(before.right)) < usize::MAX,
        -2 <= before.with_left(left).factor() <= 2,
        rebuilt_like(before, before.with_left(left)),
        exists|i: int|
            0 <= i <= before.in_order().len() && before.with_left(left).in_order()
                == #[trigger] before.in_order().insert(i, value),
{
    let grown = before.with_left(left);
    let low = elements(before.left);
    let high = elements(before.right);
    let i = choose|i: int| 0 <= i <= low.len() && elements(left) == #[trigger] low.insert(i, value);
    lemma_height_at_most_len(left);
    lemma_height_at_most_len(before.right);
    lemma_insert_keeps_below(low, i, value, before.value);
    lemma_change_in_low(low, before.value, high, i, value);
    assert(grown.in_order() == before.in_order().insert(i, value));
    lemma_rebuilt(grown);
}

/// Removes the least element of a non-empty subtree and hands it out,
/// rebalancing on the way back up.
fn take_min<T: Ord>(tree: &mut AvlTree<T>) -> (min: T)
    requires
        total_order::<T>(),
        old(tree).is_some(),
        ordered(*old(tree)),
        avl_shaped(*old(tree)),
        elements(*old(tree)).len() <= usize::MAX,
    ensures
        ordered(*final(tree)),
        avl_shaped(*final(tree)),
        elements(*old(tree)).len() > 0,
        min == elements(*old(tree))[0],
        elements(*final(tree)) == elements(*old(tree)).remove(0),
        height_of(*final(tree)) == height_of(*old(tree)) || height_of(*final(tree)) + 1
            == height_of(*old(tree)),
    decreases *old(tree),
{
    let mut node = tree.take().unwrap();
    let ghost before = *node;
    if node.left.is_none() {
        *tree = node.right.take();
        proof {
            assert(elements(before.right) =~= before.in_order().remove(0));
        }
        node.value
    } else {
        let min = take_min(&mut node.left);
        proof {
            lemma_shrunk_left(before, node.left, 0);
        }
        node.update_height();
        node.rebalance();
        *tree = Some(node);
        min
    }
}

/// Removes the root of a non-empty subtree. A root with two children
/// takes over the value of its in-order successor, which leaves the right
/// subtree instead.
fn remove_root<T: Ord>(tree: &mut AvlTree<T>)
    requires
        total_order::<T>(),
        old(tree).is_some(),
        ordered(*old(tree)),
        avl_shaped(*old(tree)),
        elements(*old(tree)).len() <= usize::MAX,
    ensures
        ordered(*final(tree)),
        avl_shaped(*final(tree)),
        elements(*final(tree)) == elements(*old(tree)).remove(
            elements(old(tree).unwrap().left).len() as int,
        ),
        height_of(*final(tree)) == height_of(*old(tree)) || height_of(*final(tree)) + 1
            == height_of(*old(tree)),
{
    let mut node = tree.take().unwrap();
    let ghost before = *node;
    let ghost at = elements(before.left).len() as int;
    if node.left.is_none() {
        *tree = node.right.take();
        proof {
            assert(elements(before.right) =~= before.in_order().remove(at));
        }
    } else if node.right.is_none() {
        *tree = node.left.take();
        proof {
            assert(elements(before.left) =~= before.in_order().remove(at));
        }
    } else {
        proof {
            lemma_height_at_most_len(before.right);
        }
        let successor = take_min(&mut node.right);
        node.value = successor;
        proof {
            lemma_promoted(before, node.right);
        }
        node.update_height();
        node.rebalance();
        *tree = Some(node);
    }
}

/// Removes the element equivalent to `value` from the subtree `tree`,
/// rebalancing on the way back up.
fn remove_from<T: Ord>(tree: &mut AvlTree<T>, value: &T) -> (removed: bool)
    requires
        total_order::<T>(),
        ordered(*old(tree)),
        avl_shaped(*old(tree)),
        elements(*old(tree)).len() <= usize::MAX,
    ensures
        ordered(*final(tree)),
        avl_shaped(*final(tree)),
        removed == member(elements(*old(tree)), *value),
        !removed ==> *final(tree) == *old(tree),
        removed ==> exists|i: int|
            0 <= i < elements(*old(tree)).len() && equiv(elements(*old(tree))[i], *value)
                && elements(*final(tree)) == #[trigger] elements(*old(tree)).remove(i),
        height_of(*final(tree)) == height_of(*old(tree)) || (removed && height_of(*final(tree))
            + 1 == height_of(*old(tree))),
    decreases *old(tree),
{
    let order = match tree {
        None => {
            return false;
        },
        Some(node) => compare(&node.value, value),
    };
    let ghost before = *old(tree).unwrap();
    proof {
        lemma_member_by_side(before, *value);
    }
    match order {
        Ordering::Equal => {
            remove_root(tree);
            true
        },
        Ordering::Less => {
            match tree {
                None => false,
                Some(node) => {
                    let removed = remove_from(&mut node.right, value);
                    if removed {
                        proof {
                            let i = choose|i: int|
                                0 <= i < elements(before.right).len() && equiv(
                                    elements(before.right)[i],
                                    *value,
                                ) && elements(node.right) == #[trigger] elements(
                                    before.right,
                                ).remove(i);
                            lemma_shrunk_right(before, node.right, i);
                        }
                        node.update_height();
                        node.rebalance();
                    }
                    removed
                },
            }
        },
        Ordering::Greater => {
            match tree {
                None => false,
                Some(node) => {
                    let removed = remove_from(&mut node.left, value);
                    if removed {
                        proof {
                            let i = choose|i: int|
                                0 <= i < elements(before.left).len() && equiv(
                                    elements(before.left)[i],
                                    *value,
                                ) && elements(node.left) == #[trigger] elements(
                                    before.left,
                                ).remove(i);
                            lemma_shrunk_left(before, node.left, i);
                        }
                        node.update_height();
                        node.rebalance();
                    }
                    removed
                },
            }
        },
    }
}

/// What holds of a node after a removal from its left subtree, once its
/// height is recomputed and it is rebalanced.
proof fn lemma_shrunk_left<T: Ord>(before: AvlNode<T>, left: AvlTree<T>, i: int)
    requires
        total_order::<T>(),
        ordered(subtree(before)),
        avl_shaped(subtree(before)),
        before.in_order().len() <= usize::MAX,
        ordered(left),
        avl_shaped(left),
        0 <= i < elements(before.left).len(),
        elements(left) == elements(before.left).remove(i),
        height_of(left) == height_of(before.left) || height_of(left) + 1 == height_of(before.left),
    ensures
        higher(height_of(left), height_of(before.right)) < usize::MAX,
        -2 <= before.with_left(left).factor() <= 2,
        rebuilt_like(before, before.with_left(left)),
        before.with_left(left).in_order() == before.in_order().remove(i),
        before.in_order()[i] == elements(before.left)[i],
{
    let shrunk = before.with_left(left);
    let low = elements(before.left);
    let high = elements(before.right);
    lemma_height_at_most_len(left);
    lemma_height_at_most_len(before.right);
    lemma_remove_keeps_side(low, i, before.value);
    lemma_change_in_low(low, before.value, high, i, before.value);
    lemma_rebuilt(shrunk);
}

/// What holds of a node after a removal from its right subtree, once its
/// height is recomputed and it is rebalanced.
proof fn lemma_shrunk_right<T: Ord>(before: AvlNode<T>, right: AvlTree<T>, i: int)
    requires
        total_order::<T>(),
        ordered(subtree(before)),
        avl_shaped(subtree(before)),
        before.in_order().len() <= usize::MAX,
        ordered(right),
        avl_shaped(right),
        0 <= i < elements(before.right).len(),
        elements(right) == elements(before.right).remove(i),
        height_of(right) == height_of(before.right) || height_of(right) + 1 == height_of(
            before.right,
        ),
    ensures
        higher(height_of(before.left), height_of(right)) < usize::MAX,
        -2 <= before.with_right(right).factor() <= 2,
        rebuilt_like(before, before.with_right(right)),
        before.with_right(right).in_order() == before.in_order().remove(
            elements(before.left).len() + 1 + i,
        ),
        before.in_order()[elements(before.left).len() + 1 + i] == elements(before.right)[i],
{
    let shrunk = before.with_right(right);
    let low = elements(before.left);
    let high = elements(before.right);
    lemma_height_at_most_len(before.left);
    lemma_height_at_most_len(right);
    lemma_remove_keeps_side(high, i, before.value);
    lemma_change_in_high(low, before.value, high, i, before.value);
    lemma_rebuilt(shrunk);
}

/// What holds of a node with two children after its in-order successor
/// has left the right subtree and taken the node's place, once the height
/// is recomputed and the node is rebalanced.
proof fn lemma_promoted<T: Ord>(before: AvlNode<T>, right: AvlTree<T>)
    requires
        total_order::<T>(),
        ordered(subtree(before)),
        avl_shaped(subtree(before)),
        before.in_order().len() <= usize::MAX,
        ordered(right),
        avl_shaped(right),
        elements(before.right).len() > 0,
        elements(right) == elements(before.right).remove(0),
        height_of(right) == height_of(before.right) || height_of(right) + 1 == height_of(
            before.right,
        ),
    ensures
        higher(height_of(before.left), height_of(right)) < usize::MAX,
        -2 <= promoted(before, right).factor() <= 2,
        rebuilt_like(before, promoted(before, right)),
        promoted(before, right).in_order() == before.in_order().remove(
            elements(before.left).len() as int,
        ),
{
    let changed = promoted(before, right);
    let low = elements(before.left);
    let high = elements(before.right);
    let successor = high[0];
    lemma_height_at_most_len(before.left);
    lemma_height_at_most_len(right);
    assert(all_below(low, successor)) by {
        assert forall|k: int| 0 <= k < low.len() implies lt(#[trigger] low[k], successor) by {
            lemma_lt_trans(low[k], before.value, successor);
        }
    }
    assert(all_above(elements(right), successor)) by {
        lemma_ordered_is_sorted(before.right);
        assert forall|k: int| 0 <= k < elements(right).len() implies lt(
            successor,
            #[trigger] elements(right)[k],
        ) by {
            assert(elements(right)[k] == high[k + 1]);
            assert(lt(high[0], high[k + 1]));
        }
    }
    assert(changed.in_order() =~= before.in_order().remove(low.len() as int));
    lemma_rebuilt(changed);
}

/// `before` with the first element of its right subtree as its value and
/// `right` as its right subtree.
spec fn promoted<T: Ord>(before: AvlNode<T>, right: AvlTree<T>) -> AvlNode<T> {
    AvlNode {
        value: elements(before.right)[0],
        left: before.left,
        right,
        height: before.height,
    }
}

/// `changed` is `before` with one child replaced; recomputing its height
/// and rebalancing it gives an ordered AVL tree with the in-order sequence
/// of `changed`, whose height differs from that of `before` by at most one
/// and only as the replaced child's height allows.
spec fn rebuilt_like<T: Ord>(before: AvlNode<T>, changed: AvlNode<T>) -> bool {
    let result = changed.refreshed().rebalanced();
    let top = 1 + higher(height_of(changed.left), height_of(changed.right));
    &&& ordered(subtree(result))
    &&& avl_shaped(subtree(result))
    &&& result.in_order() == changed.in_order()
    &&& (result.height == top || result.height + 1 == top)
    &&& (-1 <= changed.factor() <= 1 ==> result.height == top)
}

} // verus!
