//! The recursive binary tree the space-partitioning indexes are built from.

use vstd::prelude::*;

verus! {

/// A binary tree, possibly empty. Every node is owned exclusively; there are
/// no cycles and no sharing.
pub struct BinaryTree<T>(pub Option<Box<Node<T>>>);

/// One tree node: a value and two subtrees.
pub struct Node<T> {
    pub value: T,
    pub left: BinaryTree<T>,
    pub right: BinaryTree<T>,
}

impl<T> BinaryTree<T> {
    /// Number of values held.
    pub open spec fn size(self) -> nat
        decreases self,
    {
        match self.0 {
            None => 0,
            Some(node) => 1 + node.left.size() + node.right.size(),
        }
    }

    /// Whether the tree holds no value.
    pub fn is_empty(&self) -> (r: bool)
        ensures
            r <==> self.size() == 0,
    {
        match &self.0 {
            None => true,
            Some(_) => false,
        }
    }

    /// Number of values held.
    pub fn len(&self) -> (r: usize)
        requires
            self.size() <= usize::MAX,
        ensures
            r == self.size(),
    {
        Self::len_helper(self)
    }

    fn len_helper(tree: &BinaryTree<T>) -> (r: usize)
        requires
            tree.size() <= usize::MAX,
        ensures
            r == tree.size(),
        decreases *tree,
    {
        match &tree.0 {
            None => 0,
            Some(node) => 1 + Self::len_helper(&node.left) + Self::len_helper(&node.right),
        }
    }
}

} // verus!
