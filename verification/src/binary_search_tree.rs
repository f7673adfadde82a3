//! An unbalanced binary search tree.

use crate::search_order::{equals_sort_alike, lemma_insert_keeps_order, lemma_search_is_membership};
use crate::shape::{lemma_growth_adds_one, Shape};
use vstd::prelude::*;
use vstd::std_specs::cmp::{PartialEqSpec, PartialOrdSpec};

verus! {

/// One node of a binary search tree: a value slot and two optional subtrees.
///
/// A tree is either empty, with an empty value slot and no subtrees, or it
/// holds a value at every node. It grows by [`BinaryTree::insert`] alone, one
/// leaf at a time, and so stays in search-tree order.
pub struct BinaryTree<T: PartialOrd> {
    root: Option<T>,
    left: Option<Box<BinaryTree<T>>>,
    right: Option<Box<BinaryTree<T>>>,
}

impl<T: PartialOrd> BinaryTree<T> {
    /// The mathematical tree that this node and its subtrees make up.
    pub closed spec fn shape(self) -> Shape<T>
        decreases self,
    {
        match self.root {
            None => Shape::Empty,
            Some(value) => Shape::node(
                value,
                match self.left {
                    None => Shape::Empty,
                    Some(tree) => tree.shape(),
                },
                match self.right {
                    None => Shape::Empty,
                    Some(tree) => tree.shape(),
                },
            ),
        }
    }

    /// What holds of every tree at all times: an empty value slot has nothing
    /// below it, no subtree is an empty tree, and where `<` on `T` is known
    /// to compute the order of `T`, the tree is in search-tree order.
    #[verifier::type_invariant]
    spec fn well_formed(self) -> bool {
        &&& self.root is None ==> self.left is None && self.right is None
        &&& self.left matches Some(tree) ==> tree.root is Some
        &&& self.right matches Some(tree) ==> tree.root is Some
        &&& T::obeys_partial_cmp_spec() ==> self.shape().ordered()
    }
}

impl<T: PartialOrd> View for BinaryTree<T> {
    type V = Shape<T>;

    open spec fn view(&self) -> Shape<T> {
        self.shape()
    }
}

impl<T: Eq + PartialOrd> BinaryTree<T> {
    /// A tree of at most one value: empty for `None`, a single node
    /// otherwise.
    pub fn new(root: Option<T>) -> (tree: Self)
        ensures
            tree@ == match root {
                None => Shape::Empty,
                Some(value) => Shape::leaf(value),
            },
            T::obeys_partial_cmp_spec() ==> tree@.ordered(),
    {
        proof {
            reveal_with_fuel(Shape::ordered, 2);
        }
        match root {
            Some(root) => BinaryTree { root: Some(root), left: None, right: None },
            None => BinaryTree { root: None, left: None, right: None },
        }
    }

    /// Whether the tree holds no value.
    pub fn is_empty(&self) -> (empty: bool)
        ensures
            empty == (self@ is Empty),
    {
        self.root.is_none()
    }

    /// The value at the top of the tree, if the tree holds one.
    pub fn root(&self) -> (value: Option<&T>)
        ensures
            match value {
                Some(value) => self@.top() == Some(*value),
                None => self@ is Empty,
            },
    {
        self.root.as_ref()
    }

    /// The subtree of what sorts strictly before the top value, if there is
    /// any such value.
    pub fn left(&self) -> (subtree: Option<&BinaryTree<T>>)
        ensures
            match subtree {
                Some(tree) => tree@ is Node && tree@ == self@.left_part(),
                None => self@.left_part() is Empty,
            },
            T::obeys_partial_cmp_spec() ==> self@.ordered(),
    {
        proof {
            use_type_invariant(self);
        }
        match &self.left {
            Some(tree) => Some(&**tree),
            None => None,
        }
    }

    /// The subtree of what does not sort strictly before the top value, if
    /// there is any such value.
    pub fn right(&self) -> (subtree: Option<&BinaryTree<T>>)
        ensures
            match subtree {
                Some(tree) => tree@ is Node && tree@ == self@.right_part(),
                None => self@.right_part() is Empty,
            },
            T::obeys_partial_cmp_spec() ==> self@.ordered(),
    {
        proof {
            use_type_invariant(self);
        }
        match &self.right {
            Some(tree) => Some(&**tree),
            None => None,
        }
    }

    /// Puts `item` into the tree: into the value slot of an empty tree, else
    /// as a new leaf below the last node of its walk, which turns left at
    /// every value that `item` sorts strictly before and right at every
    /// other, equal ones included. Nothing that is in the tree moves.
    pub fn insert(&mut self, item: T)
        ensures
            final(self)@.grew_by(old(self)@, item),
            final(self)@ is Node,
            final(self)@.elements() == old(self)@.elements().insert(item),
            T::obeys_partial_cmp_spec() ==> final(self)@ == old(self)@.inserted(item),
            T::obeys_partial_cmp_spec() ==> final(self)@.ordered(),
        decreases *old(self),
    {
        proof {
            use_type_invariant(&*self);
        }
        let Some(ref root) = self.root else {
            self.root = Some(item);
            return;
        };
        let goes_left = &item < root;
        let ghost left_before = old(self)@.left_part();
        let ghost right_before = old(self)@.right_part();
        proof {
            reveal_with_fuel(Shape::grew_by, 2);
            reveal_with_fuel(Shape::inserted, 2);
            reveal_with_fuel(Shape::ordered, 2);
            if T::obeys_partial_cmp_spec() {
                lemma_insert_keeps_order(old(self)@, item);
            }
        }
        // The side that takes the item is detached while it grows and hung
        // back afterwards; the rest of the tree is whole at every step.
        if goes_left {
            let mut left = None;
            core::mem::swap(&mut left, &mut self.left);
            let grown = match left {
                Some(mut subtree) => {
                    subtree.insert(item);
                    subtree
                },
                None => Box::new(BinaryTree::new(Some(item))),
            };
            assert(grown@.grew_by(left_before, item));
            self.left = Some(grown);
        } else {
            let mut right = None;
            core::mem::swap(&mut right, &mut self.right);
            let grown = match right {
                Some(mut subtree) => {
                    subtree.insert(item);
                    subtree
                },
                None => Box::new(BinaryTree::new(Some(item))),
            };
            assert(grown@.grew_by(right_before, item));
            self.right = Some(grown);
        }
        proof {
            lemma_growth_adds_one(self@, old(self)@, item);
        }
    }

    /// Whether the tree holds a value that `item` equals. At each node the
    /// search goes on to one side only: to the left where `item` sorts
    /// strictly before the node's value, to the right otherwise. Where equal
    /// values sort alike, nothing is missed that way.
    pub fn contains(&self, item: &T) -> (found: bool)
        ensures
            self@ is Empty ==> !found,
            T::obeys_eq_spec() && T::obeys_partial_cmp_spec() ==> found == self@.finds(*item),
            T::obeys_eq_spec() && T::obeys_partial_cmp_spec() && equals_sort_alike::<T>() ==> found
                == self@.member(*item),
        decreases self,
    {
        proof {
            use_type_invariant(self);
            if T::obeys_partial_cmp_spec() && equals_sort_alike::<T>() {
                lemma_search_is_membership(self@, *item);
            }
        }
        let Some(ref root) = self.root else {
            return false;
        };
        if item == root {
            return true;
        }
        proof {
            reveal_with_fuel(Shape::finds, 2);
        }
        let mut left = false;
        let mut right = false;
        if item < root {
            if let Some(left_subtree) = &self.left {
                left = left_subtree.contains(item);
            }
        } else {
            if let Some(ref right_subtree) = self.right {
                right = right_subtree.contains(item);
            }
        }
        left || right
    }
}

} // verus!
