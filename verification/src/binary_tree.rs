//! Unbalanced binary search trees: the nodes, their in-order sequence and
//! an in-order cursor.

use crate::order::{equiv, lemma_lt_trans, lemma_trichotomy, lt, total_order};
use crate::sorted_seq::{
    all_above, all_below, lemma_change_in_high, lemma_change_in_low, lemma_insert_keeps_above,
    lemma_insert_keeps_below, lemma_sorted_join, member, strictly_sorted,
};
use vstd::prelude::*;

verus! {

/// One vertex of the tree, which owns its value and both of its subtrees.
#[derive(Debug)]
pub struct BinaryNode<T> {
    pub value: T,
    pub left: BinaryTree<T>,
    pub right: BinaryTree<T>,
}

/// A possibly empty subtree.
pub type BinaryTree<T> = Option<Box<BinaryNode<T>>>;

/// The values of a subtree in in-order: left subtree, root, right subtree.
pub open spec fn elements<T>(tree: BinaryTree<T>) -> Seq<T>
    decreases tree,
{
    match tree {
        None => Seq::empty(),
        Some(node) => elements(node.left).push(node.value) + elements(node.right),
    }
}

/// At every node, all values of the left subtree are strictly below the
/// node's value and all values of the right subtree strictly above it.
pub open spec fn ordered<T: Ord>(tree: BinaryTree<T>) -> bool
    decreases tree,
{
    match tree {
        None => true,
        Some(node) => {
            &&& all_below(elements(node.left), node.value)
            &&& all_above(elements(node.right), node.value)
            &&& ordered(node.left)
            &&& ordered(node.right)
        },
    }
}

/// The tree that holds `value` alone.
pub open spec fn leaf<T>(value: T) -> BinaryTree<T> {
    Some(Box::new(BinaryNode { value, left: None, right: None }))
}

/// The in-order sequence of an ordered tree is strictly sorted.
pub proof fn lemma_ordered_is_sorted<T: Ord>(tree: BinaryTree<T>)
    requires
        total_order::<T>(),
        ordered(tree),
    ensures
        strictly_sorted(elements(tree)),
    decreases tree,
{
    match tree {
        None => {},
        Some(node) => {
            lemma_ordered_is_sorted(node.left);
            lemma_ordered_is_sorted(node.right);
            lemma_sorted_join(elements(node.left), node.value, elements(node.right));
        },
    }
}

/// Whether `v` is in an ordered tree is decided by the root's value and,
/// where that differs, by the one child on `v`'s side.
pub proof fn lemma_member_by_side<T: Ord>(node: BinaryNode<T>, v: T)
    requires
        total_order::<T>(),
        ordered(Some(Box::new(node))),
    ensures
        equiv(node.value, v) ==> member(elements(Some(Box::new(node))), v),
        lt(v, node.value) ==> member(elements(Some(Box::new(node))), v) == member(
            elements(node.left),
            v,
        ),
        lt(node.value, v) ==> member(elements(Some(Box::new(node))), v) == member(
            elements(node.right),
            v,
        ),
{
    let low = elements(node.left);
    let high = elements(node.right);
    let s = elements(Some(Box::new(node)));
    let n = low.len() as int;
    assert(s[n] == node.value);
    lemma_trichotomy(node.value, v);
    if lt(v, node.value) {
        assert forall|i: int| 0 <= i < high.len() implies !equiv(#[trigger] high[i], v) by {
            lemma_lt_trans(v, node.value, high[i]);
            lemma_trichotomy(high[i], v);
        }
        if member(low, v) {
            let i = choose|i: int| 0 <= i < low.len() && equiv(#[trigger] low[i], v);
            assert(s[i] == low[i]);
        }
        if member(s, v) {
            let i = choose|i: int| 0 <= i < s.len() && equiv(#[trigger] s[i], v);
            if i < n {
                assert(s[i] == low[i]);
            } else if i > n {
                assert(s[i] == high[i - n - 1]);
            }
        }
    } else if lt(node.value, v) {
        assert forall|i: int| 0 <= i < low.len() implies !equiv(#[trigger] low[i], v) by {
            lemma_lt_trans(low[i], node.value, v);
            lemma_trichotomy(low[i], v);
        }
        if member(high, v) {
            let i = choose|i: int| 0 <= i < high.len() && equiv(#[trigger] high[i], v);
            assert(s[i + n + 1] == high[i]);
        }
        if member(s, v) {
            let i = choose|i: int| 0 <= i < s.len() && equiv(#[trigger] s[i], v);
            if i < n {
                assert(s[i] == low[i]);
            } else if i > n {
                assert(s[i] == high[i - n - 1]);
            }
        }
    }
}

/// The child of `node` on the given side: the right one for `true`.
pub open spec fn child<T>(node: BinaryNode<T>, right: bool) -> BinaryTree<T> {
    if right {
        node.right
    } else {
        node.left
    }
}

/// `node` with `sub` as its child on the given side.
pub open spec fn with_child<T>(node: BinaryNode<T>, right: bool, sub: BinaryTree<T>) -> BinaryNode<T> {
    if right {
        BinaryNode { value: node.value, left: node.left, right: sub }
    } else {
        BinaryNode { value: node.value, left: sub, right: node.right }
    }
}

/// The subtree that `path` leads to from the root of `tree`; each step of
/// the path names a side, `true` for right.
pub open spec fn subtree_at<T>(tree: BinaryTree<T>, path: Seq<bool>) -> BinaryTree<T>
    decreases path.len(),
{
    if path.len() == 0 {
        tree
    } else {
        match tree {
            None => None,
            Some(node) => subtree_at(child(*node, path[0]), path.drop_first()),
        }
    }
}

/// `tree` with `sub` in the place that `path` leads to.
pub open spec fn grafted<T>(tree: BinaryTree<T>, path: Seq<bool>, sub: BinaryTree<T>) -> BinaryTree<T>
    decreases path.len(),
{
    if path.len() == 0 {
        sub
    } else {
        match tree {
            None => None,
            Some(node) => Some(
                Box::new(
                    with_child(
                        *node,
                        path[0],
                        grafted(child(*node, path[0]), path.drop_first(), sub),
                    ),
                ),
            ),
        }
    }
}

/// `path` is the way that a search for `v` takes from the root of `tree`:
/// right at a node with a smaller value, left at one with a larger value.
pub open spec fn search_path<T: Ord>(tree: BinaryTree<T>, path: Seq<bool>, v: T) -> bool
    decreases path.len(),
{
    path.len() > 0 ==> match tree {
        None => false,
        Some(node) => {
            &&& if path[0] {
                lt(node.value, v)
            } else {
                lt(v, node.value)
            }
            &&& search_path(child(*node, path[0]), path.drop_first(), v)
        },
    }
}

/// One more step at the end of a path that leads to `node`.
pub proof fn lemma_path_step<T: Ord>(
    tree: BinaryTree<T>,
    path: Seq<bool>,
    node: BinaryNode<T>,
    right: bool,
    sub: BinaryTree<T>,
    v: T,
)
    requires
        subtree_at(tree, path) == Some(Box::new(node)),
    ensures
        subtree_at(tree, path.push(right)) == child(node, right),
        grafted(tree, path.push(right), sub) == grafted(
            tree,
            path,
            Some(Box::new(with_child(node, right, sub))),
        ),
        search_path(tree, path, v) && (if right {
            lt(node.value, v)
        } else {
            lt(v, node.value)
        }) ==> search_path(tree, path.push(right), v),
    decreases path.len(),
{
    let longer = path.push(right);
    if path.len() == 0 {
        assert(longer.drop_first() =~= Seq::<bool>::empty());
        assert(longer[0] == right);
        assert(subtree_at(child(node, right), longer.drop_first()) == child(node, right));
        assert(search_path(child(node, right), longer.drop_first(), v));
        assert(grafted(child(node, right), longer.drop_first(), sub) == sub);
        assert(grafted(tree, longer, sub) == Some(Box::new(with_child(node, right, sub))));
    } else {
        let top = tree.unwrap();
        let rest = path.drop_first();
        assert(longer.drop_first() =~= rest.push(right));
        assert(longer[0] == path[0]);
        lemma_path_step(child(*top, path[0]), rest, node, right, sub, v);
        assert(grafted(tree, longer, sub) == Some(
            Box::new(
                with_child(*top, path[0], grafted(child(*top, path[0]), rest.push(right), sub)),
            ),
        ));
    }
}

/// Putting back what a search path leads to changes nothing.
pub proof fn lemma_graft_same<T: Ord>(tree: BinaryTree<T>, path: Seq<bool>, v: T)
    requires
        search_path(tree, path, v),
    ensures
        grafted(tree, path, subtree_at(tree, path)) == tree,
    decreases path.len(),
{
    if path.len() > 0 {
        let top = tree.unwrap();
        lemma_graft_same(child(*top, path[0]), path.drop_first(), v);
        assert(with_child(*top, path[0], child(*top, path[0])) == *top);
    }
}

/// What a search for `v` comes upon, where it does not end at a node
/// equivalent to `v`, decides whether `v` is in the tree; and a value put
/// where the search ends in nothing is inserted in order.
pub proof fn lemma_search<T: Ord>(tree: BinaryTree<T>, path: Seq<bool>, v: T)
    requires
        total_order::<T>(),
        ordered(tree),
        search_path(tree, path, v),
    ensures
        ordered(subtree_at(tree, path)),
        member(elements(tree), v) == member(elements(subtree_at(tree, path)), v),
        subtree_at(tree, path) is None ==> {
            &&& ordered(grafted(tree, path, leaf(v)))
            &&& exists|i: int|
                0 <= i <= elements(tree).len() && elements(grafted(tree, path, leaf(v)))
                    == #[trigger] elements(tree).insert(i, v)
        },
    decreases path.len(),
{
    if path.len() == 0 {
        if tree is None {
            assert(elements(leaf(v)) =~= elements(tree).insert(0, v));
        }
    } else {
        let top = *tree.unwrap();
        let side = child(top, path[0]);
        let rest = path.drop_first();
        lemma_member_by_side(top, v);
        lemma_search(side, rest, v);
        if subtree_at(tree, path) is None {
            let low = elements(top.left);
            let high = elements(top.right);
            let grown = grafted(side, rest, leaf(v));
            let i = choose|i: int|
                0 <= i <= elements(side).len() && elements(grown) == #[trigger] elements(
                    side,
                ).insert(i, v);
            if path[0] {
                lemma_insert_keeps_above(high, i, v, top.value);
                lemma_change_in_high(low, top.value, high, i, v);
                assert(elements(grafted(tree, path, leaf(v))) == elements(tree).insert(
                    low.len() + 1 + i,
                    v,
                ));
            } else {
                lemma_insert_keeps_below(low, i, v, top.value);
                lemma_change_in_low(low, top.value, high, i, v);
                assert(elements(grafted(tree, path, leaf(v))) == elements(tree).insert(i, v));
            }
        }
    }
}

/// The values that an in-order walk still owes for the ancestors on
/// `stack`: for each of them, from the last pushed to the first, the
/// ancestor's value and then its right subtree.
pub open spec fn pending<T>(stack: Seq<&BinaryNode<T>>) -> Seq<T>
    decreases stack.len(),
{
    if stack.len() == 0 {
        Seq::empty()
    } else {
        (seq![stack.last().value] + elements(stack.last().right)) + pending(stack.drop_last())
    }
}

/// A cursor over the values of a tree in in-order.
///
/// It holds the subtree that is walked next and a stack of the ancestors
/// whose left subtrees are being walked.
#[derive(Debug)]
pub struct InOrder<'a, T> {
    prev_nodes: Vec<&'a BinaryNode<T>>,
    current_tree: &'a BinaryTree<T>,
}

impl<'a, T> InOrder<'a, T> {
    /// The values that the cursor has yet to produce, in the order in
    /// which it produces them.
    pub closed spec fn remaining(&self) -> Seq<T> {
        elements(*self.current_tree) + pending(self.prev_nodes@)
    }

    /// A cursor at the start of the walk of `tree`.
    pub fn new(tree: &'a BinaryTree<T>) -> (cursor: Self)
        ensures
            cursor.remaining() == elements(*tree),
    {
        let cursor = InOrder { prev_nodes: Vec::new(), current_tree: tree };
        proof {
            assert(cursor.remaining() =~= elements(*tree));
        }
        cursor
    }

    /// Produces the next value, or `None` when the walk is over.
    pub fn next(&mut self) -> (item: Option<&'a T>)
        ensures
            match item {
                None => old(self).remaining().len() == 0 && final(self).remaining().len() == 0,
                Some(value) => {
                    &&& old(self).remaining().len() > 0
                    &&& *value == old(self).remaining()[0]
                    &&& final(self).remaining() == old(self).remaining().skip(1)
                },
            },
    {
        loop
            invariant
                self.remaining() == old(self).remaining(),
            decreases elements(*self.current_tree).len(),
        {
            match self.current_tree {
                None => {
                    let ghost stack = self.prev_nodes@;
                    match self.prev_nodes.pop() {
                        None => {
                            return None;
                        },
                        Some(prev_node) => {
                            let value = &prev_node.value;

                            self.current_tree = &prev_node.right;
                            proof {
                                assert(stack.drop_last() == self.prev_nodes@);
                                assert(self.remaining() =~= old(self).remaining().skip(1));
                            }

                            return Some(value);
                        },
                    }
                },
                Some(current_node) => {
                    let ghost stack = self.prev_nodes@;
                    let ghost before = elements(*self.current_tree);
                    if current_node.left.is_some() {
                        self.prev_nodes.push(&**current_node);
                        self.current_tree = &current_node.left;
                        proof {
                            assert(self.prev_nodes@.drop_last() =~= stack);
                            assert(self.remaining() =~= before + pending(stack));
                        }

                        continue ;
                    }
                    let value = &current_node.value;

                    self.current_tree = &current_node.right;
                    proof {
                        assert(elements(current_node.left) =~= Seq::empty());
                        assert(self.remaining() =~= old(self).remaining().skip(1));
                    }

                    return Some(value);
                },
            }
        }
    }
}

} // verus!
