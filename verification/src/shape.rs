//! The mathematical tree that both tree types are views of.

use vstd::multiset::Multiset;
use vstd::prelude::*;

verus! {

/// A finite binary tree of values: either nothing, or a value with a tree on
/// each side.
pub enum Shape<T> {
    Empty,
    Node { value: T, left: Box<Shape<T>>, right: Box<Shape<T>> },
}

impl<T> Shape<T> {
    /// The tree made of `value` over `left` and `right`.
    pub open spec fn node(value: T, left: Shape<T>, right: Shape<T>) -> Shape<T> {
        Shape::Node { value, left: Box::new(left), right: Box::new(right) }
    }

    /// The tree that holds `value` and nothing else.
    pub open spec fn leaf(value: T) -> Shape<T> {
        Shape::node(value, Shape::Empty, Shape::Empty)
    }

    /// The value at the top, if there is one.
    pub open spec fn top(self) -> Option<T> {
        match self {
            Shape::Empty => None,
            Shape::Node { value, .. } => Some(value),
        }
    }

    /// The tree below the top on the left; empty where there is none.
    pub open spec fn left_part(self) -> Shape<T> {
        match self {
            Shape::Empty => Shape::Empty,
            Shape::Node { left, .. } => *left,
        }
    }

    /// The tree below the top on the right; empty where there is none.
    pub open spec fn right_part(self) -> Shape<T> {
        match self {
            Shape::Empty => Shape::Empty,
            Shape::Node { right, .. } => *right,
        }
    }

    /// Whether this tree is `before` with `item` as one new leaf in a place
    /// that was empty, and with nothing else changed.
    pub open spec fn grew_by(self, before: Shape<T>, item: T) -> bool
        decreases before,
    {
        match before {
            Shape::Empty => self == Shape::leaf(item),
            Shape::Node { value, left, right } => {
                &&& self is Node
                &&& self.top() == Some(value)
                &&& {
                    ||| self.left_part().grew_by(*left, item) && self.right_part() == *right
                    ||| self.left_part() == *left && self.right_part().grew_by(*right, item)
                }
            },
        }
    }

    /// Every value of the tree, each as often as it occurs.
    pub open spec fn elements(self) -> Multiset<T>
        decreases self,
    {
        match self {
            Shape::Empty => Multiset::empty(),
            Shape::Node { value, left, right } => left.elements().add(right.elements()).insert(
                value,
            ),
        }
    }
}

/// A tree that grew by an item holds the item once more than before, and
/// every other value as often as before.
pub proof fn lemma_growth_adds_one<T>(after: Shape<T>, before: Shape<T>, item: T)
    requires
        after.grew_by(before, item),
    ensures
        after.elements() == before.elements().insert(item),
        after is Node,
    decreases before,
{
    match before {
        Shape::Empty => {
            assert(after.elements() =~= before.elements().insert(item));
        },
        Shape::Node { value, left, right } => {
            if after.left_part().grew_by(*left, item) && after.right_part() == *right {
                lemma_growth_adds_one(after.left_part(), *left, item);
            } else {
                lemma_growth_adds_one(after.right_part(), *right, item);
            }
            assert(after.elements() =~= before.elements().insert(item));
        },
    }
}

} // verus!
