//! The nodes of an AVL tree: cached heights, balance factors and rotations.

use crate::order::total_order;
use crate::sorted_seq::{all_above, all_below, lemma_sorted_join, lemma_sorted_split, strictly_sorted};
use vstd::prelude::*;

verus! {

/// One vertex of the tree. It owns its value and both of its subtrees, and
/// caches the height of the subtree that it roots.
#[derive(Debug, PartialEq)]
pub struct AvlNode<T: Ord> {
    pub value: T,
    pub left: AvlTree<T>,
    pub right: AvlTree<T>,
    pub height: usize,
}

/// A possibly empty subtree.
pub type AvlTree<T> = Option<Box<AvlNode<T>>>;

/// The cached height of a subtree: 0 when it is empty, else the root's `height` field.
pub open spec fn height_of<T: Ord>(tree: AvlTree<T>) -> nat {
    match tree {
        None => 0,
        Some(node) => node.height as nat,
    }
}

/// The larger of two heights.
pub open spec fn higher(a: nat, b: nat) -> nat {
    if a >= b {
        a
    } else {
        b
    }
}

/// The values of a subtree in in-order: left subtree, root, right subtree.
pub open spec fn elements<T: Ord>(tree: AvlTree<T>) -> Seq<T>
    decreases tree,
{
    match tree {
        None => Seq::empty(),
        Some(node) => elements(node.left).push(node.value) + elements(node.right),
    }
}

/// The nodes of a subtree in in-order.
pub open spec fn nodes<T: Ord>(tree: AvlTree<T>) -> Seq<AvlNode<T>>
    decreases tree,
{
    match tree {
        None => Seq::empty(),
        Some(node) => nodes(node.left).push(*node) + nodes(node.right),
    }
}

/// The in-order values are the values of the in-order nodes.
pub proof fn lemma_values_of_nodes<T: Ord>(tree: AvlTree<T>)
    ensures
        elements(tree) == nodes(tree).map_values(|node: AvlNode<T>| node.value),
    decreases tree,
{
    let value_of = |node: AvlNode<T>| node.value;
    match tree {
        None => {
            assert(elements(tree) =~= nodes(tree).map_values(value_of));
        },
        Some(node) => {
            lemma_values_of_nodes(node.left);
            lemma_values_of_nodes(node.right);
            assert(elements(tree) =~= nodes(tree).map_values(value_of));
        },
    }
}

/// Every node caches one more than the larger cached height of its children.
pub open spec fn heights_correct<T: Ord>(tree: AvlTree<T>) -> bool
    decreases tree,
{
    match tree {
        None => true,
        Some(node) => {
            &&& node.height == 1 + higher(height_of(node.left), height_of(node.right))
            &&& heights_correct(node.left)
            &&& heights_correct(node.right)
        },
    }
}

/// At every node the cached heights of the two children differ by at most one.
pub open spec fn balanced<T: Ord>(tree: AvlTree<T>) -> bool
    decreases tree,
{
    match tree {
        None => true,
        Some(node) => {
            &&& height_of(node.left) <= height_of(node.right) + 1
            &&& height_of(node.right) <= height_of(node.left) + 1
            &&& balanced(node.left)
            &&& balanced(node.right)
        },
    }
}

/// At every node, all values of the left subtree are strictly below the
/// node's value and all values of the right subtree strictly above it.
pub open spec fn ordered<T: Ord>(tree: AvlTree<T>) -> bool
    decreases tree,
{
    match tree {
        None => true,
        Some(node) => {
            &&& all_below(elements(node.left), node.value)
            &&& all_above(elements(node.right), node.value)
            &&& ordered(node.left)
            &&& ordered(node.right)
        },
    }
}

/// The shape invariant of an AVL tree: correct cached heights and balance at every node.
pub open spec fn avl_shaped<T: Ord>(tree: AvlTree<T>) -> bool {
    heights_correct(tree) && balanced(tree)
}

/// The subtree that consists of `node` and all below it.
pub open spec fn subtree<T: Ord>(node: AvlNode<T>) -> AvlTree<T> {
    Some(Box::new(node))
}

/// A left rotation keeps the in-order sequence.
pub proof fn lemma_rotated_left_in_order<T: Ord>(node: AvlNode<T>)
    requires
        node.right.is_some(),
    ensures
        node.rotated_left().in_order() == node.in_order(),
{
    let pivot = node.right.unwrap();
    let after = node.rotated_left();
    assert(elements(node.right) =~= elements(pivot.left).push(pivot.value) + elements(
        pivot.right,
    ));
    assert(elements(after.left) =~= elements(node.left).push(node.value) + elements(pivot.left));
    assert(after.in_order() =~= node.in_order());
}

/// A right rotation keeps the in-order sequence.
pub proof fn lemma_rotated_right_in_order<T: Ord>(node: AvlNode<T>)
    requires
        node.left.is_some(),
    ensures
        node.rotated_right().in_order() == node.in_order(),
{
    let pivot = node.left.unwrap();
    let after = node.rotated_right();
    assert(elements(node.left) =~= elements(pivot.left).push(pivot.value) + elements(
        pivot.right,
    ));
    assert(elements(after.right) =~= elements(pivot.right).push(node.value) + elements(
        node.right,
    ));
    assert(after.in_order() =~= node.in_order());
}

/// Rebalancing keeps the in-order sequence.
pub proof fn lemma_rebalanced_in_order<T: Ord>(node: AvlNode<T>)
    requires
        node.factor() == -2 ==> node.right.is_some() && (node.right.unwrap().factor() > 0
            ==> node.right.unwrap().left.is_some()),
        node.factor() == 2 ==> node.left.is_some() && (node.left.unwrap().factor() < 0
            ==> node.left.unwrap().right.is_some()),
    ensures
        node.rebalanced().in_order() == node.in_order(),
{
    if node.factor() == -2 {
        let right = node.right.unwrap();
        if right.factor() <= 0 {
            lemma_rotated_left_in_order(node);
        } else {
            lemma_rotated_right_in_order(*right);
            let turned = node.with_right(Some(Box::new(right.rotated_right())));
            assert(elements(turned.right) == right.rotated_right().in_order());
            assert(elements(node.right) == right.in_order());
            lemma_rotated_left_in_order(turned);
        }
    } else if node.factor() == 2 {
        let left = node.left.unwrap();
        if left.factor() >= 0 {
            lemma_rotated_right_in_order(node);
        } else {
            lemma_rotated_left_in_order(*left);
            let turned = node.with_left(Some(Box::new(left.rotated_left())));
            assert(elements(turned.left) == left.rotated_left().in_order());
            assert(elements(node.left) == left.in_order());
            lemma_rotated_right_in_order(turned);
        }
    }
}

/// Recomputing the height of a node and rebalancing it makes an ordered
/// AVL tree of two ordered AVL trees that differ in height by at most two
/// and a value between them. The result has the same in-order sequence; it
/// is one higher than the higher child, or just as high where a rotation
/// took place.
pub proof fn lemma_rebuilt<T: Ord>(node: AvlNode<T>)
    requires
        total_order::<T>(),
        ordered(node.left),
        ordered(node.right),
        all_below(elements(node.left), node.value),
        all_above(elements(node.right), node.value),
        avl_shaped(node.left),
        avl_shaped(node.right),
        -2 <= node.factor() <= 2,
        higher(height_of(node.left), height_of(node.right)) < usize::MAX,
    ensures
        ordered(subtree(node.refreshed().rebalanced())),
        avl_shaped(subtree(node.refreshed().rebalanced())),
        node.refreshed().rebalanced().in_order() == node.in_order(),
        node.refreshed().rebalanced().height == 1 + higher(
            height_of(node.left),
            height_of(node.right),
        ) || node.refreshed().rebalanced().height == higher(
            height_of(node.left),
            height_of(node.right),
        ),
        -1 <= node.factor() <= 1 ==> node.refreshed().rebalanced() == node.refreshed(),
{
    let fresh = node.refreshed();
    let result = fresh.rebalanced();
    lemma_rebalanced_shape(fresh);
    assert(result.in_order() == node.in_order()) by {
        lemma_rebalanced_in_order(fresh);
    }
    assert(ordered(subtree(result))) by {
        assert(ordered(subtree(fresh)));
        lemma_ordered_is_sorted(subtree(fresh));
        lemma_sorted_is_ordered(subtree(result));
    }
}

/// Rebalancing a node with a correct height, whose children are AVL trees
/// that differ in height by at most two, gives an AVL tree that is as high
/// as the node was or one lower. A node that was in balance is left alone.
pub proof fn lemma_rebalanced_shape<T: Ord>(node: AvlNode<T>)
    requires
        avl_shaped(node.left),
        avl_shaped(node.right),
        -2 <= node.factor() <= 2,
        node.height == 1 + higher(height_of(node.left), height_of(node.right)),
        node.height <= usize::MAX,
    ensures
        avl_shaped(subtree(node.rebalanced())),
        node.rebalanced().height == node.height || node.rebalanced().height + 1 == node.height,
        -1 <= node.factor() <= 1 ==> node.rebalanced() == node,
{
    let result = node.rebalanced();
    if node.factor() == -2 {
        let right = node.right.unwrap();
        assert(avl_shaped(right.left) && avl_shaped(right.right));
        if right.factor() <= 0 {
            assert(avl_shaped(result.left));
        } else {
            let pivot = right.left.unwrap();
            assert(avl_shaped(pivot.left) && avl_shaped(pivot.right));
            let turned = right.rotated_right();
            assert(avl_shaped(turned.right));
            assert(avl_shaped(result.left));
            assert(avl_shaped(result.right));
        }
    } else if node.factor() == 2 {
        let left = node.left.unwrap();
        assert(avl_shaped(left.left) && avl_shaped(left.right));
        if left.factor() >= 0 {
            assert(avl_shaped(result.right));
        } else {
            let pivot = left.right.unwrap();
            assert(avl_shaped(pivot.left) && avl_shaped(pivot.right));
            let turned = left.rotated_left();
            assert(avl_shaped(turned.left));
            assert(avl_shaped(result.left));
            assert(avl_shaped(result.right));
        }
    }
}

/// The least number of nodes of an AVL tree of the given height: a root
/// over a least tree of height one less and a least tree of height two less.
pub open spec fn least_size(height: nat) -> nat
    decreases height,
{
    if height == 0 {
        0
    } else if height == 1 {
        1
    } else {
        1 + least_size((height - 1) as nat) + least_size((height - 2) as nat)
    }
}

/// A higher AVL tree needs at least as many nodes.
pub proof fn lemma_least_size_grows(low: nat, high: nat)
    requires
        low <= high,
    ensures
        least_size(low) <= least_size(high),
    decreases high,
{
    if low < high {
        lemma_least_size_grows(low, (high - 1) as nat);
    }
}

/// An AVL tree has at least the least number of nodes for its height, so
/// its height grows with the logarithm of its size only.
pub proof fn lemma_size_for_height<T: Ord>(tree: AvlTree<T>)
    requires
        avl_shaped(tree),
    ensures
        least_size(height_of(tree)) <= elements(tree).len(),
    decreases tree,
{
    match tree {
        None => {},
        Some(node) => {
            let left = height_of(node.left);
            let right = height_of(node.right);
            lemma_size_for_height(node.left);
            lemma_size_for_height(node.right);
            if node.height >= 2 {
                if left >= right {
                    lemma_least_size_grows((node.height - 2) as nat, right);
                } else {
                    lemma_least_size_grows((node.height - 2) as nat, left);
                }
            }
        },
    }
}

/// Every node of an ordered AVL tree lies between its two subtrees, has
/// children that differ in height by at most one, and caches one more
/// than the larger height of its children.
pub proof fn lemma_every_node<T: Ord>(tree: AvlTree<T>, i: int)
    requires
        ordered(tree),
        avl_shaped(tree),
        0 <= i < nodes(tree).len(),
    ensures
        all_below(elements(nodes(tree)[i].left), nodes(tree)[i].value),
        all_above(elements(nodes(tree)[i].right), nodes(tree)[i].value),
        -1 <= nodes(tree)[i].factor() <= 1,
        nodes(tree)[i].height == 1 + higher(
            height_of(nodes(tree)[i].left),
            height_of(nodes(tree)[i].right),
        ),
    decreases tree,
{
    let node = tree.unwrap();
    let before = nodes(node.left).len();
    if i < before {
        lemma_every_node(node.left, i);
    } else if i > before {
        lemma_every_node(node.right, i - before - 1);
    }
}

/// The in-order sequence of an ordered tree is strictly sorted.
pub proof fn lemma_ordered_is_sorted<T: Ord>(tree: AvlTree<T>)
    requires
        total_order::<T>(),
        ordered(tree),
    ensures
        strictly_sorted(elements(tree)),
    decreases tree,
{
    match tree {
        None => {},
        Some(node) => {
            lemma_ordered_is_sorted(node.left);
            lemma_ordered_is_sorted(node.right);
            lemma_sorted_join(elements(node.left), node.value, elements(node.right));
        },
    }
}

/// A tree whose in-order sequence is strictly sorted is ordered at every node.
pub proof fn lemma_sorted_is_ordered<T: Ord>(tree: AvlTree<T>)
    requires
        strictly_sorted(elements(tree)),
    ensures
        ordered(tree),
    decreases tree,
{
    match tree {
        None => {},
        Some(node) => {
            lemma_sorted_split(elements(node.left), node.value, elements(node.right));
            lemma_sorted_is_ordered(node.left);
            lemma_sorted_is_ordered(node.right);
        },
    }
}

/// A tree with correct heights is no higher than it has elements.
pub proof fn lemma_height_at_most_len<T: Ord>(tree: AvlTree<T>)
    requires
        heights_correct(tree),
    ensures
        height_of(tree) <= elements(tree).len(),
        tree.is_some() ==> height_of(tree) >= 1,
    decreases tree,
{
    match tree {
        None => {},
        Some(node) => {
            lemma_height_at_most_len(node.left);
            lemma_height_at_most_len(node.right);
        },
    }
}

impl<T: Ord> AvlNode<T> {
    /// The node that a left rotation makes of `self`: the right child comes
    /// up, `self` becomes its left child and adopts its former left subtree.
    /// The heights of the demoted node and of the new root are recomputed,
    /// in that order.
    pub open spec fn rotated_left(self) -> AvlNode<T>
        recommends
            self.right.is_some(),
    {
        let pivot = self.right.unwrap();
        let demoted = AvlNode {
            value: self.value,
            left: self.left,
            right: pivot.left,
            height: (1 + higher(height_of(self.left), height_of(pivot.left))) as usize,
        };
        AvlNode {
            value: pivot.value,
            left: Some(Box::new(demoted)),
            right: pivot.right,
            height: (1 + higher(demoted.height as nat, height_of(pivot.right))) as usize,
        }
    }

    /// The node that a right rotation makes of `self`; the mirror image of
    /// [`AvlNode::rotated_left`].
    pub open spec fn rotated_right(self) -> AvlNode<T>
        recommends
            self.left.is_some(),
    {
        let pivot = self.left.unwrap();
        let demoted = AvlNode {
            value: self.value,
            left: pivot.right,
            right: self.right,
            height: (1 + higher(height_of(pivot.right), height_of(self.right))) as usize,
        };
        AvlNode {
            value: pivot.value,
            left: pivot.left,
            right: Some(Box::new(demoted)),
            height: (1 + higher(height_of(pivot.left), demoted.height as nat)) as usize,
        }
    }

    /// This node with its cached height recomputed from those of its children.
    pub open spec fn refreshed(self) -> AvlNode<T> {
        AvlNode {
            value: self.value,
            left: self.left,
            right: self.right,
            height: (1 + higher(height_of(self.left), height_of(self.right))) as usize,
        }
    }

    /// The values of the subtree rooted at this node, in in-order.
    pub open spec fn in_order(self) -> Seq<T> {
        elements(self.left).push(self.value) + elements(self.right)
    }

    /// Cached height of the left subtree minus that of the right subtree.
    pub open spec fn factor(self) -> int {
        height_of(self.left) - height_of(self.right)
    }

    /// This node with another right subtree.
    pub open spec fn with_right(self, right: AvlTree<T>) -> AvlNode<T> {
        AvlNode { value: self.value, left: self.left, right, height: self.height }
    }

    /// This node with another left subtree.
    pub open spec fn with_left(self, left: AvlTree<T>) -> AvlNode<T> {
        AvlNode { value: self.value, left, right: self.right, height: self.height }
    }

    /// The node that rebalancing makes of `self`.
    ///
    /// A factor of -2 (right-heavy) is mended by a left rotation, after a
    /// right rotation of the right child where that child leans left. A
    /// factor of 2 is mended the mirrored way. Any other node stays as it is.
    pub open spec fn rebalanced(self) -> AvlNode<T> {
        if self.factor() == -2 {
            let right = self.right.unwrap();
            if right.factor() <= 0 {
                self.rotated_left()
            } else {
                self.with_right(Some(Box::new(right.rotated_right()))).rotated_left()
            }
        } else if self.factor() == 2 {
            let left = self.left.unwrap();
            if left.factor() >= 0 {
                self.rotated_right()
            } else {
                self.with_left(Some(Box::new(left.rotated_left()))).rotated_right()
            }
        } else {
            self
        }
    }

    /// Cached height of the left subtree.
    pub fn left_height(&self) -> (h: usize)
        ensures
            h == height_of(self.left),
    {
        match &self.left {
            Some(left) => left.height,
            None => 0,
        }
    }

    /// Cached height of the right subtree.
    pub fn right_height(&self) -> (h: usize)
        ensures
            h == height_of(self.right),
    {
        match &self.right {
            Some(right) => right.height,
            None => 0,
        }
    }

    /// Recomputes the cached height from the cached heights of the two children.
    pub fn update_height(&mut self)
        requires
            higher(height_of(old(self).left), height_of(old(self).right)) < usize::MAX,
        ensures
            *final(self) == old(self).refreshed(),
            final(self).height == 1 + higher(height_of(old(self).left), height_of(old(self).right)),
    {
        let left_height = self.left_height();
        let right_height = self.right_height();
        self.height = 1 + if left_height >= right_height {
            left_height
        } else {
            right_height
        };
    }

    /// Cached height of the left subtree minus that of the right subtree.
    pub fn balance_factor(&mut self) -> (factor: i8)
        requires
            -128 <= height_of(old(self).left) - height_of(old(self).right) <= 127,
        ensures
            factor == height_of(old(self).left) - height_of(old(self).right),
            *final(self) == *old(self),
    {
        let left_height = self.left_height();
        let right_height = self.right_height();
        if left_height >= right_height {
            (left_height - right_height) as i8
        } else {
            let diff = right_height - left_height;
            if diff == 128 {
                i8::MIN
            } else {
                -(diff as i8)
            }
        }
    }

    /// Rotates the subtree rooted at `self` to the left.
    pub fn rotate_left(&mut self)
        requires
            old(self).right.is_some(),
            higher(height_of(old(self).left), height_of(old(self).right.unwrap().left)) + 1
                < usize::MAX,
            height_of(old(self).right.unwrap().right) < usize::MAX,
        ensures
            *final(self) == old(self).rotated_left(),
            final(self).in_order() == old(self).in_order(),
    {
        let mut pivot = *self.right.take().unwrap();
        self.right = pivot.left.take();
        self.update_height();
        std::mem::swap(self, &mut pivot);
        self.left = Some(Box::new(pivot));
        self.update_height();
        proof {
            lemma_rotated_left_in_order(*old(self));
        }
    }

    /// Rotates the subtree rooted at `self` to the right.
    pub fn rotate_right(&mut self)
        requires
            old(self).left.is_some(),
            higher(height_of(old(self).left.unwrap().right), height_of(old(self).right)) + 1
                < usize::MAX,
            height_of(old(self).left.unwrap().left) < usize::MAX,
        ensures
            *final(self) == old(self).rotated_right(),
            final(self).in_order() == old(self).in_order(),
    {
        let mut pivot = *self.left.take().unwrap();
        self.left = pivot.right.take();
        self.update_height();
        std::mem::swap(self, &mut pivot);
        self.right = Some(Box::new(pivot));
        self.update_height();
        proof {
            lemma_rotated_right_in_order(*old(self));
        }
    }

    /// Restores the balance of a node whose children differ in height by two.
    pub fn rebalance(&mut self)
        requires
            heights_correct(old(self).left),
            heights_correct(old(self).right),
            balanced(old(self).left),
            balanced(old(self).right),
            height_of(old(self).left) < usize::MAX,
            height_of(old(self).right) < usize::MAX,
            -128 <= old(self).factor() <= 127,
        ensures
            *final(self) == old(self).rebalanced(),
            final(self).in_order() == old(self).in_order(),
    {
        let factor = self.balance_factor();
        if factor == -2 {
            proof {
                let right = self.right.unwrap();
                assert(heights_correct(right.left) && heights_correct(right.right));
                assert(balanced(right.left) && balanced(right.right));
            }
            let right_factor = match &mut self.right {
                Some(right) => right.balance_factor(),
                None => 0,
            };
            if right_factor > 0 {
                proof {
                    let pivot = self.right.unwrap().left.unwrap();
                    assert(heights_correct(pivot.left) && heights_correct(pivot.right));
                }
                match &mut self.right {
                    Some(right) => right.rotate_right(),
                    None => {},
                }
            }
            self.rotate_left();
        } else if factor == 2 {
            proof {
                let left = self.left.unwrap();
                assert(heights_correct(left.left) && heights_correct(left.right));
                assert(balanced(left.left) && balanced(left.right));
            }
            let left_factor = match &mut self.left {
                Some(left) => left.balance_factor(),
                None => 0,
            };
            if left_factor < 0 {
                proof {
                    let pivot = self.left.unwrap().right.unwrap();
                    assert(heights_correct(pivot.left) && heights_correct(pivot.right));
                }
                match &mut self.left {
                    Some(left) => left.rotate_left(),
                    None => {},
                }
            }
            self.rotate_right();
        }
        proof {
            lemma_rebalanced_in_order(*old(self));
        }
    }
}

} // verus!
