//! A binary tree without any ordering, assembled bottom-up from subtrees.

use crate::shape::Shape;
use vstd::prelude::*;
use vstd::std_specs::cmp::PartialEqSpec;

verus! {

/// One node of a plain binary tree: a value slot and two optional subtrees.
///
/// A node whose value slot is empty counts as an empty tree: whatever hangs
/// below it is out of reach of every operation, and is no part of the node's
/// view.
pub struct BinaryTree<T> {
    elem: Option<T>,
    left: Option<Box<BinaryTree<T>>>,
    right: Option<Box<BinaryTree<T>>>,
}

impl<T> BinaryTree<T> {
    /// The mathematical tree that this node and its subtrees make up.
    pub closed spec fn shape(self) -> Shape<T>
        decreases self,
    {
        match self.elem {
            None => Shape::Empty,
            Some(value) => Shape::node(
                value,
                match self.left {
                    None => Shape::Empty,
                    Some(tree) => tree.shape(),
                },
                match self.right {
                    None => Shape::Empty,
                    Some(tree) => tree.shape(),
                },
            ),
        }
    }
}

impl<T> View for BinaryTree<T> {
    type V = Shape<T>;

    open spec fn view(&self) -> Shape<T> {
        self.shape()
    }
}

/// The tree that an optional subtree stands for: empty where it is absent.
pub open spec fn link_shape<T>(link: Option<Box<BinaryTree<T>>>) -> Shape<T> {
    match link {
        None => Shape::Empty,
        Some(tree) => tree@,
    }
}

impl<T: PartialEq> Shape<T> {
    /// Whether some value of the tree equals `item`, wherever it stands. The
    /// value is the left side of the comparison, `item` the right.
    pub open spec fn holds(self, item: T) -> bool {
        exists|x: T| #[trigger] self.elements().contains(x) && x.eq_spec(&item)
    }
}

/// A tree holds an item exactly when its top value equals the item or one of
/// its two sides holds it. The empty tree holds nothing.
pub proof fn lemma_holds_unfolds<T: PartialEq>(value: T, left: Shape<T>, right: Shape<T>, item: T)
    ensures
        Shape::node(value, left, right).holds(item) <==> value.eq_spec(&item) || left.holds(item)
            || right.holds(item),
        !Shape::<T>::Empty.holds(item),
{
    let whole = Shape::node(value, left, right);
    if whole.holds(item) {
        let x = choose|x: T| #[trigger] whole.elements().contains(x) && x.eq_spec(&item);
        if x != value {
            assert(left.elements().contains(x) || right.elements().contains(x));
        }
    }
    if left.holds(item) {
        let x = choose|x: T| #[trigger] left.elements().contains(x) && x.eq_spec(&item);
        assert(whole.elements().contains(x));
    }
    if right.holds(item) {
        let x = choose|x: T| #[trigger] right.elements().contains(x) && x.eq_spec(&item);
        assert(whole.elements().contains(x));
    }
    if value.eq_spec(&item) {
        assert(whole.elements().contains(value));
    }
}

impl<T: Eq> BinaryTree<T> {
    /// Builds one node from a value slot and two subtrees that were built
    /// before.
    pub fn new(
        elem: Option<T>,
        left: Option<Box<BinaryTree<T>>>,
        right: Option<Box<BinaryTree<T>>>,
    ) -> (tree: Option<Box<BinaryTree<T>>>)
        ensures
            tree.is_some(),
            link_shape(tree) == match elem {
                None => Shape::Empty,
                Some(value) => Shape::node(value, link_shape(left), link_shape(right)),
            },
    {
        Some(Box::new(BinaryTree { elem, left, right }))
    }

    /// Whether the value slot of this node is empty.
    pub fn is_empty(&self) -> (empty: bool)
        ensures
            empty == (self@ is Empty),
    {
        self.elem.is_none()
    }

    /// The value of this node, if its value slot holds one.
    pub fn elem(&self) -> (value: Option<&T>)
        ensures
            match value {
                Some(value) => self@.top() == Some(*value),
                None => self@ is Empty,
            },
    {
        self.elem.as_ref()
    }

    /// Whether some value of the tree equals `item`. Both sides are searched;
    /// no order among the values is assumed.
    pub fn contains(&self, item: &T) -> (found: bool)
        ensures
            self@ is Empty ==> !found,
            T::obeys_eq_spec() ==> found == self@.holds(*item),
        decreases self,
    {
        let Some(ref elem) = self.elem else {
            return false;
        };
        proof {
            lemma_holds_unfolds(*elem, link_shape(self.left), link_shape(self.right), *item);
        }
        if elem == item {
            return true;
        }
        let mut left = false;
        let mut right = false;
        if let Some(left_subtree) = &self.left {
            left = left_subtree.contains(item);
        }
        if let Some(right_subtree) = &self.right {
            right = right_subtree.contains(item);
        }
        left || right
    }
}

} // verus!
