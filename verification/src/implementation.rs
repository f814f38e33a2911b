use crate::interface::IBinaryTree;
use crate::laws::{lemma_with_subtree_at_same, lemma_with_value};
use crate::model::is_search_tree;
use crate::node::{Link, Node};
use crate::visit::Callback;
use vstd::prelude::*;

verus! {

/// A binary search tree that owns its nodes, each node its children.
pub struct ConcreteBinaryTree<T, F = Callback<T>> {
    callback: Option<F>,
    root: Option<Box<Node<T>>>,
}

impl<T, F> ConcreteBinaryTree<T, F> where
    T: Copy + PartialEq + PartialOrd,
    F: Fn(Option<T>) -> Option<T>,
 {
    /// An empty tree with no callback.
    pub fn new() -> (tree: Self)
        ensures
            tree.root() is None,
            tree.callback() is None,
            is_search_tree(tree.root()),
    {
        Self { callback: None, root: None }
    }
}

impl<T, F> IBinaryTree<T, F> for ConcreteBinaryTree<T, F> where
    T: Copy + PartialEq + PartialOrd,
    F: Fn(Option<T>) -> Option<T>,
 {
    closed spec fn root(&self) -> Link<T> {
        self.root
    }

    closed spec fn callback(&self) -> Option<F> {
        self.callback
    }

    fn set_callback(&mut self, callback: F) {
        self.callback = Some(callback);
    }

    fn search(&mut self, item: T) -> (found: Option<T>) {
        if let Some(root) = &mut self.root {
            if let Some(node) = root.inner_search(item) {
                proof {
                    lemma_with_subtree_at_same(old(self).root, item, *node);
                }
                return Some(node.item);
            } else {
                return None;
            }
        } else {
            return None;
        }
    }

    fn insert(&mut self, item: T) {
        if let Some(root) = &mut self.root {
            return root.inner_insert(item);
        } else {
            self.root = Some(Box::new(Node::<T>::new(item)));
            proof {
                lemma_with_value(old(self).root, item);
            }
            return ;
        }
    }

    fn remove(&mut self, item: T) {
        if let Some(ref mut root) = &mut self.root {
            self.root = root.inner_remove(item);
        }
    }

    fn pre_order(&self) -> (returned: Ghost<Seq<Option<T>>>) {
        if let Some(root) = &self.root {
            root.inner_pre_order(&self.callback)
        } else {
            Ghost(Seq::empty())
        }
    }

    fn in_order(&self) -> (returned: Ghost<Seq<Option<T>>>) {
        if let Some(root) = &self.root {
            root.inner_in_order(&self.callback)
        } else {
            Ghost(Seq::empty())
        }
    }

    fn post_order(&self) -> (returned: Ghost<Seq<Option<T>>>) {
        if let Some(root) = &self.root {
            root.inner_post_order(&self.callback)
        } else {
            Ghost(Seq::empty())
        }
    }
}

} // verus!
