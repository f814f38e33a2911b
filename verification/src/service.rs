use crate::implementation::ConcreteBinaryTree;
use crate::interface::IBinaryTree;
use crate::model::is_search_tree;
use crate::node::Link;
use crate::visit::Callback;
use vstd::prelude::*;

verus! {

/// A binary search tree behind the interface: callers hold this type,
/// and the tree that does the work can be exchanged for another.
#[verifier::reject_recursive_types(T)]
#[verifier::reject_recursive_types(F)]
pub struct BinaryTree<T, F = Callback<T>> {
    tree: Box<dyn IBinaryTree<T, F>>,
}

impl<T, F> BinaryTree<T, F> where
    T: Copy + PartialEq + PartialOrd + 'static,
    F: Fn(Option<T>) -> Option<T> + 'static,
 {
    /// An empty tree with no callback.
    pub fn new() -> (service: Self)
        ensures
            service.root() is None,
            service.callback() is None,
            is_search_tree(service.root()),
    {
        let tree = ConcreteBinaryTree::<T, F>::new();

        Self { tree: Box::new(tree) }
    }
}

impl<T, F> IBinaryTree<T, F> for BinaryTree<T, F> where
    T: Copy + PartialEq + PartialOrd,
    F: Fn(Option<T>) -> Option<T>,
 {
    closed spec fn root(&self) -> Link<T> {
        self.tree.root()
    }

    closed spec fn callback(&self) -> Option<F> {
        self.tree.callback()
    }

    fn set_callback(&mut self, callback: F) {
        self.tree.set_callback(callback);
    }

    fn search(&mut self, item: T) -> (found: Option<T>) {
        return self.tree.search(item);
    }

    fn insert(&mut self, item: T) {
        self.tree.insert(item);
    }

    fn remove(&mut self, item: T) {
        self.tree.remove(item);
    }

    fn pre_order(&self) -> (returned: Ghost<Seq<Option<T>>>) {
        self.tree.pre_order()
    }

    fn in_order(&self) -> (returned: Ghost<Seq<Option<T>>>) {
        self.tree.in_order()
    }

    fn post_order(&self) -> (returned: Ghost<Seq<Option<T>>>) {
        self.tree.post_order()
    }
}

} // verus!
