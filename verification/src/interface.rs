use crate::model::{
    in_order_of, is_search_tree, post_order_of, pre_order_of, values_of, with_value,
    without_value,
};
use crate::node::Link;
use crate::order::total_order;
use crate::visit::{accepts_all, handed_each, Callback};
use vstd::prelude::*;

verus! {

/// What every binary search tree offers, whatever holds its nodes. The
/// contracts speak of the tree's shape, `root`, and of the callback that
/// its traversals call.
pub trait IBinaryTree<T, F = Callback<T>> where
    T: Copy + PartialEq + PartialOrd,
    F: Fn(Option<T>) -> Option<T>,
 {
    /// The tree's nodes, from the top.
    spec fn root(&self) -> Link<T>;

    /// The callback that traversals call, if one is set.
    spec fn callback(&self) -> Option<F>;

    /// Sets the callback, in place of any that was set before.
    fn set_callback(&mut self, callback: F)
        ensures
            final(self).callback() == Some(callback),
            final(self).root() == old(self).root(),
    ;

    /// Returns `item` if the tree holds it, and leaves the tree as it was.
    fn search(&mut self, item: T) -> (found: Option<T>)
        requires
            total_order::<T>(),
            is_search_tree(old(self).root()),
        ensures
            found == if values_of(old(self).root()).contains(item) {
                Some(item)
            } else {
                None
            },
            final(self).root() == old(self).root(),
            final(self).callback() == old(self).callback(),
    ;

    /// Puts `item` into the tree; changes nothing if the tree holds it.
    fn insert(&mut self, item: T)
        requires
            total_order::<T>(),
            is_search_tree(old(self).root()),
        ensures
            final(self).root() == with_value(old(self).root(), item),
            is_search_tree(final(self).root()),
            values_of(final(self).root()) == values_of(old(self).root()).insert(item),
            values_of(old(self).root()).contains(item) ==> final(self).root() == old(self).root(),
            final(self).callback() == old(self).callback(),
    ;

    /// Takes `item` out of the tree; changes nothing if the tree does
    /// not hold it.
    fn remove(&mut self, item: T)
        requires
            total_order::<T>(),
            is_search_tree(old(self).root()),
        ensures
            final(self).root() == without_value(old(self).root(), item),
            is_search_tree(final(self).root()),
            values_of(final(self).root()) == values_of(old(self).root()).remove(item),
            !values_of(old(self).root()).contains(item) ==> final(self).root() == old(self).root(),
            final(self).callback() == old(self).callback(),
    ;

    /// Calls the callback on each value, a node before its subtrees.
    /// What the calls gave back is dropped: it comes back as a ghost.
    fn pre_order(&self) -> (returned: Ghost<Seq<Option<T>>>)
        requires
            accepts_all(self.callback(), values_of(self.root())),
        ensures
            handed_each(self.callback(), pre_order_of(self.root()), returned@),
    ;

    /// Calls the callback on each value, a node between its subtrees:
    /// in a search tree, in sorted order.
    fn in_order(&self) -> (returned: Ghost<Seq<Option<T>>>)
        requires
            accepts_all(self.callback(), values_of(self.root())),
        ensures
            handed_each(self.callback(), in_order_of(self.root()), returned@),
    ;

    /// Calls the callback on each value, a node after its subtrees.
    fn post_order(&self) -> (returned: Ghost<Seq<Option<T>>>)
        requires
            accepts_all(self.callback(), values_of(self.root())),
        ensures
            handed_each(self.callback(), post_order_of(self.root()), returned@),
    ;
}

} // verus!
