//! Two binary trees and the mathematics they share.
//!
//! [`binary_search_tree`] holds an unbalanced search tree that grows by
//! insertion and never shrinks; [`binary_tree`] holds a plain tree that is
//! assembled bottom-up and imposes no order on its values. Both are seen
//! through the same model, a [`shape::Shape`]. What makes a shape a search
//! tree, and what follows from it, is worked out in [`search_order`].

pub mod binary_search_tree;
pub mod binary_tree;
pub mod search_order;
pub mod shape;
