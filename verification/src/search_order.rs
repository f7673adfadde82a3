//! What it means for a tree to be a search tree: how an item walks down
//! into it, the order that this walk keeps, and what a search along the same
//! walk can and cannot find.

use crate::shape::{lemma_growth_adds_one, Shape};
use core::cmp::Ordering;
use vstd::laws_cmp::{obeys_cmp, obeys_cmp_ord, obeys_partial_cmp_spec_properties};
use vstd::laws_eq::obeys_eq_spec_properties;
use vstd::prelude::*;
use vstd::std_specs::cmp::{OrdSpec, PartialEqSpec, PartialOrdSpec};

verus! {

/// Whether `a` sorts strictly before `b`.
pub open spec fn precedes<T: PartialOrd>(a: T, b: T) -> bool {
    a.partial_cmp_spec(&b) == Some(Ordering::Less)
}

/// Whether values that are equal sort alike: a value sorts strictly before
/// exactly those values that its equals sort strictly before.
pub open spec fn equals_sort_alike<T: PartialOrd>() -> bool {
    forall|a: T, b: T, c: T|
        #![trigger a.eq_spec(&b), precedes(a, c)]
        #![trigger a.eq_spec(&b), precedes(b, c)]
        a.eq_spec(&b) ==> (precedes(a, c) <==> precedes(b, c))
}

impl<T: PartialOrd> Shape<T> {
    /// The tree after `item` went in: it walks down from the top, to the left
    /// of every value that it sorts strictly before and to the right of every
    /// other, and becomes a leaf where the walk leaves the tree.
    pub open spec fn inserted(self, item: T) -> Shape<T>
        decreases self,
    {
        match self {
            Shape::Empty => Shape::leaf(item),
            Shape::Node { value, left, right } => if precedes(item, value) {
                Shape::node(value, left.inserted(item), *right)
            } else {
                Shape::node(value, *left, right.inserted(item))
            },
        }
    }

    /// The tree after the values of `items` went in, one after the other.
    pub open spec fn inserted_all(self, items: Seq<T>) -> Shape<T>
        decreases items.len(),
    {
        if items.len() == 0 {
            self
        } else {
            self.inserted_all(items.drop_last()).inserted(items.last())
        }
    }

    /// Whether the walk that an insertion of `item` would take meets a value
    /// that `item` equals.
    pub open spec fn finds(self, item: T) -> bool
        decreases self,
    {
        match self {
            Shape::Empty => false,
            Shape::Node { value, left, right } => item.eq_spec(&value) || if precedes(
                item,
                value,
            ) {
                left.finds(item)
            } else {
                right.finds(item)
            },
        }
    }

    /// Whether `item` equals some value of the tree, wherever it stands.
    pub open spec fn member(self, item: T) -> bool {
        exists|x: T| #[trigger] self.elements().contains(x) && item.eq_spec(&x)
    }

    /// The search-tree order: at every node, what is on the left sorts
    /// strictly before the node's value and what is on the right does not.
    pub open spec fn ordered(self) -> bool
        decreases self,
    {
        match self {
            Shape::Empty => true,
            Shape::Node { value, left, right } => {
                &&& left.ordered()
                &&& right.ordered()
                &&& forall|x: T| #[trigger] left.elements().contains(x) ==> precedes(x, value)
                &&& forall|x: T| #[trigger] right.elements().contains(x) ==> !precedes(x, value)
            },
        }
    }
}

/// An insertion hangs its item into the tree as one new leaf and moves
/// nothing: the values of the tree gain the item and are otherwise what they
/// were, and the tree is not empty afterwards.
pub proof fn lemma_insert_adds_one<T: PartialOrd>(tree: Shape<T>, item: T)
    ensures
        tree.inserted(item).grew_by(tree, item),
        tree.inserted(item).elements() == tree.elements().insert(item),
        tree.inserted(item) is Node,
    decreases tree,
{
    match tree {
        Shape::Empty => {},
        Shape::Node { value, left, right } => {
            lemma_insert_adds_one(*left, item);
            lemma_insert_adds_one(*right, item);
        },
    }
    lemma_growth_adds_one(tree.inserted(item), tree, item);
}

/// An insertion keeps the search-tree order.
pub proof fn lemma_insert_keeps_order<T: PartialOrd>(tree: Shape<T>, item: T)
    requires
        tree.ordered(),
    ensures
        tree.inserted(item).ordered(),
    decreases tree,
{
    match tree {
        Shape::Empty => {},
        Shape::Node { value, left, right } => {
            lemma_insert_adds_one(*left, item);
            lemma_insert_adds_one(*right, item);
            if precedes(item, value) {
                lemma_insert_keeps_order(*left, item);
                assert forall|x: T| #[trigger]
                    left.inserted(item).elements().contains(x) implies precedes(x, value) by {
                    assert(x == item || left.elements().contains(x));
                }
            } else {
                lemma_insert_keeps_order(*right, item);
                assert forall|x: T| #[trigger]
                    right.inserted(item).elements().contains(x) implies !precedes(x, value) by {
                    assert(x == item || right.elements().contains(x));
                }
            }
        },
    }
}

/// A tree that grew from the empty tree by insertions alone is in
/// search-tree order.
pub proof fn lemma_grown_tree_is_ordered<T: PartialOrd>(items: Seq<T>)
    ensures
        Shape::<T>::Empty.inserted_all(items).ordered(),
    decreases items.len(),
{
    if items.len() > 0 {
        lemma_grown_tree_is_ordered(items.drop_last());
        lemma_insert_keeps_order(Shape::<T>::Empty.inserted_all(items.drop_last()), items.last());
    }
}

/// An item that equals itself is found once it was inserted.
pub proof fn lemma_inserted_is_found<T: PartialOrd>(tree: Shape<T>, item: T)
    requires
        item.eq_spec(&item),
    ensures
        tree.inserted(item).finds(item),
    decreases tree,
{
    match tree {
        Shape::Empty => {},
        Shape::Node { value, left, right } => {
            lemma_inserted_is_found(*left, item);
            lemma_inserted_is_found(*right, item);
        },
    }
}

/// An insertion takes nothing away: what was found before is found after it,
/// whether or not the inserted item was in the tree already.
pub proof fn lemma_insert_keeps_found<T: PartialOrd>(tree: Shape<T>, item: T, other: T)
    requires
        tree.finds(other),
    ensures
        tree.inserted(item).finds(other),
    decreases tree,
{
    match tree {
        Shape::Empty => {},
        Shape::Node { value, left, right } => {
            if !other.eq_spec(&value) {
                if precedes(other, value) {
                    lemma_insert_keeps_found(*left, item, other);
                } else {
                    lemma_insert_keeps_found(*right, item, other);
                }
            }
        },
    }
}

/// An insertion adds nothing but its item: what is found after it was found
/// before or equals the item.
pub proof fn lemma_found_was_found_or_inserted<T: PartialOrd>(tree: Shape<T>, item: T, other: T)
    requires
        tree.inserted(item).finds(other),
    ensures
        tree.finds(other) || other.eq_spec(&item),
    decreases tree,
{
    match tree {
        Shape::Empty => {},
        Shape::Node { value, left, right } => {
            if !other.eq_spec(&value) {
                if precedes(other, value) {
                    if precedes(item, value) {
                        lemma_found_was_found_or_inserted(*left, item, other);
                    }
                } else {
                    if !precedes(item, value) {
                        lemma_found_was_found_or_inserted(*right, item, other);
                    }
                }
            }
        },
    }
}

/// Every item of a run of insertions that equals itself is found after the
/// run, whatever the tree held before.
pub proof fn lemma_all_inserted_are_found<T: PartialOrd>(tree: Shape<T>, items: Seq<T>, i: int)
    requires
        0 <= i < items.len(),
        items[i].eq_spec(&items[i]),
    ensures
        tree.inserted_all(items).finds(items[i]),
    decreases items.len(),
{
    let before = tree.inserted_all(items.drop_last());
    if i == items.len() - 1 {
        lemma_inserted_is_found(before, items[i]);
    } else {
        lemma_all_inserted_are_found(tree, items.drop_last(), i);
        lemma_insert_keeps_found(before, items.last(), items[i]);
    }
}

/// A run of insertions takes nothing away: what was found before the run is
/// found after it.
pub proof fn lemma_inserts_keep_found<T: PartialOrd>(tree: Shape<T>, items: Seq<T>, other: T)
    requires
        tree.finds(other),
    ensures
        tree.inserted_all(items).finds(other),
    decreases items.len(),
{
    if items.len() > 0 {
        lemma_inserts_keep_found(tree, items.drop_last(), other);
        lemma_insert_keeps_found(tree.inserted_all(items.drop_last()), items.last(), other);
    }
}

/// A run of insertions changes the answer only for what equals one of its
/// items. In particular, a tree that grew from the empty tree finds nothing
/// that equals none of the items that went in.
pub proof fn lemma_never_inserted_is_not_found<T: PartialOrd>(
    tree: Shape<T>,
    items: Seq<T>,
    other: T,
)
    requires
        forall|i: int| 0 <= i < items.len() ==> !other.eq_spec(&#[trigger] items[i]),
    ensures
        tree.inserted_all(items).finds(other) == tree.finds(other),
        !Shape::<T>::Empty.inserted_all(items).finds(other),
    decreases items.len(),
{
    if items.len() > 0 {
        let rest = items.drop_last();
        lemma_never_inserted_is_not_found(tree, rest, other);
        let before = tree.inserted_all(rest);
        if before.finds(other) {
            lemma_insert_keeps_found(before, items.last(), other);
        }
        if before.inserted(items.last()).finds(other) {
            lemma_found_was_found_or_inserted(before, items.last(), other);
        }
        let grown = Shape::<T>::Empty.inserted_all(rest);
        if grown.inserted(items.last()).finds(other) {
            lemma_found_was_found_or_inserted(grown, items.last(), other);
        }
    }
}

/// A tree that holds a value never becomes empty again, and one insertion
/// is enough to hold a value.
pub proof fn lemma_stays_nonempty<T: PartialOrd>(tree: Shape<T>, items: Seq<T>)
    requires
        tree is Node || items.len() > 0,
    ensures
        tree.inserted_all(items) is Node,
{
}

/// Whatever is found equals a value of the tree.
pub proof fn lemma_found_is_member<T: PartialOrd>(tree: Shape<T>, item: T)
    requires
        tree.finds(item),
    ensures
        tree.member(item),
    decreases tree,
{
    match tree {
        Shape::Empty => {},
        Shape::Node { value, left, right } => {
            if item.eq_spec(&value) {
                assert(tree.elements().contains(value));
            } else if precedes(item, value) {
                lemma_found_is_member(*left, item);
                let x = choose|x: T| #[trigger] left.elements().contains(x) && item.eq_spec(&x);
                assert(tree.elements().contains(x));
            } else {
                lemma_found_is_member(*right, item);
                let x = choose|x: T| #[trigger] right.elements().contains(x) && item.eq_spec(&x);
                assert(tree.elements().contains(x));
            }
        },
    }
}

/// In a tree that is in search-tree order, and where equal values sort
/// alike, the search along one walk misses nothing: it finds an item
/// exactly when the item equals some value of the tree.
pub proof fn lemma_search_is_membership<T: PartialOrd>(tree: Shape<T>, item: T)
    requires
        tree.ordered(),
        equals_sort_alike::<T>(),
    ensures
        tree.finds(item) == tree.member(item),
    decreases tree,
{
    if tree.finds(item) {
        lemma_found_is_member(tree, item);
    }
    match tree {
        Shape::Empty => {},
        Shape::Node { value, left, right } => {
            if tree.member(item) && !item.eq_spec(&value) {
                let x = choose|x: T| #[trigger] tree.elements().contains(x) && item.eq_spec(&x);
                assert(left.elements().contains(x) || right.elements().contains(x));
                if left.elements().contains(x) {
                    lemma_search_is_membership(*left, item);
                } else {
                    lemma_search_is_membership(*right, item);
                }
            }
        },
    }
}

/// Under a total order that keeps the laws of comparison, every value equals
/// itself, equal values sort alike, and what does not sort strictly before a
/// value is greater than or equal to it: the right side of every node of an
/// ordered tree then holds what is at least the node's value.
pub proof fn lemma_total_order_sorts_alike<T: Ord>()
    requires
        obeys_cmp::<T>(),
    ensures
        equals_sort_alike::<T>(),
        forall|a: T| #[trigger] a.eq_spec(&a),
        forall|a: T, b: T|
            !(#[trigger] precedes(a, b)) <==> (a.partial_cmp_spec(&b) matches Some(
                Ordering::Greater
                | Ordering::Equal,
            )),
{
    reveal(obeys_eq_spec_properties);
    reveal(obeys_partial_cmp_spec_properties);
    reveal(obeys_cmp_ord);
    assert forall|a: T| #[trigger] a.eq_spec(&a) by {
        assert(a.partial_cmp_spec(&a) == Some(a.cmp_spec(&a)));
    }
}

} // verus!
