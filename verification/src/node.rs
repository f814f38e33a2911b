use crate::laws::{lemma_subtree_at, lemma_with_value, lemma_without_value};
use crate::model::{
    in_order_of, is_search_tree, post_order_of, pre_order_of, subtree_at, values_of,
    with_subtree_at, with_value, without_value,
};
use crate::order::total_order;
use crate::visit::{accepts_all, handed_each, lemma_accepts_part, lemma_handed_each_in_a_row};
use vstd::prelude::*;

verus! {

/// One value of the tree and the two subtrees below it, each owned by
/// this node alone.
pub struct Node<T> {
    pub item: T,
    pub left: Option<Box<Node<T>>>,
    pub right: Option<Box<Node<T>>>,
}

/// A place where a subtree hangs: empty, or the node at its top.
pub type Link<T> = Option<Box<Node<T>>>;

impl<T: Copy + PartialEq + PartialOrd> Node<T> {
    /// A node that holds `item` and has no children.
    pub fn new(item: T) -> (node: Self)
        ensures
            node == (Node { item, left: None, right: None }),
    {
        Self { item: item, left: None, right: None }
    }

    /// Walks down from this node to where `item` belongs and lends out
    /// the node that holds it, if there is one. The tree afterwards is
    /// the tree before with whatever the borrower leaves in that node.
    pub fn inner_search(&mut self, item: T) -> (found: Option<&mut Node<T>>)
        requires
            total_order::<T>(),
            is_search_tree(old(self).as_link()),
        ensures
            found is Some <==> values_of(old(self).as_link()).contains(item),
            found matches Some(node) ==> node.item == item,
            match found {
                Some(node) => {
                    &&& subtree_at(old(self).as_link(), item) == Some(*node)
                    &&& final(self).as_link() == with_subtree_at(
                        old(self).as_link(),
                        item,
                        *final(node),
                    )
                },
                None => {
                    &&& subtree_at(old(self).as_link(), item) is None
                    &&& *final(self) == *old(self)
                },
            },
        decreases *old(self),
    {
        proof {
            lemma_subtree_at(old(self).as_link(), item);
        }
        if self.item == item {
            return Some(self);
        }
        if item < self.item {
            if let Some(left) = &mut self.left {
                return left.inner_search(item);
            } else {
                assert(subtree_at(old(self).left, item) is None);
                return None;
            }
        } else {
            if let Some(right) = &mut self.right {
                return right.inner_search(item);
            } else {
                assert(subtree_at(old(self).right, item) is None);
                return None;
            }
        }
    }

    /// Puts `item` into the subtree below this node, as a new leaf where
    /// the walk down ends; changes nothing if `item` is already there.
    pub fn inner_insert(&mut self, item: T)
        requires
            total_order::<T>(),
            is_search_tree(old(self).as_link()),
        ensures
            final(self).as_link() == with_value(old(self).as_link(), item),
            is_search_tree(final(self).as_link()),
            values_of(final(self).as_link()) == values_of(old(self).as_link()).insert(item),
            values_of(old(self).as_link()).contains(item) ==> *final(self) == *old(self),
        decreases *old(self),
    {
        proof {
            lemma_with_value(old(self).as_link(), item);
        }
        if self.item == item {
            return ;
        }
        if item < self.item {
            if let Some(left) = &mut self.left {
                return left.inner_insert(item);
            } else {
                self.left = Some(Box::new(Node::<T>::new(item)));
                assert(self.left == with_value(old(self).left, item));
                return ;
            }
        } else {
            if let Some(right) = &mut self.right {
                return right.inner_insert(item);
            } else {
                self.right = Some(Box::new(Node::<T>::new(item)));
                assert(self.right == with_value(old(self).right, item));
                return ;
            }
        }
    }

    /// Takes `item` out of the subtree below this node and returns what
    /// is left of the subtree, for the caller to hang where this node
    /// hung. This node itself is left behind without children; it holds
    /// the value of the node at the top of what is returned, or, where
    /// it gave way to a child, the value that came out.
    pub fn inner_remove(&mut self, item: T) -> (rebuilt: Option<Box<Node<T>>>)
        requires
            total_order::<T>(),
            is_search_tree(old(self).as_link()),
        ensures
            rebuilt == without_value(old(self).as_link(), item),
            is_search_tree(rebuilt),
            values_of(rebuilt) == values_of(old(self).as_link()).remove(item),
            !values_of(old(self).as_link()).contains(item) ==> rebuilt == old(self).as_link(),
            final(self).left is None,
            final(self).right is None,
            final(self).item == if item == old(self).item && old(self).left is Some && old(
                self,
            ).right is Some {
                old(self).right->0.least()
            } else {
                old(self).item
            },
        decreases *old(self),
    {
        proof {
            lemma_without_value(old(self).as_link(), item);
        }
        if &item < &self.item {
            if let Some(ref mut left) = self.left {
                self.left = left.inner_remove(item);
            }
            assert(self.left == without_value(old(self).left, item));
        } else if &item > &self.item {
            if let Some(ref mut right) = self.right {
                self.right = right.inner_remove(item);
            }
            assert(self.right == without_value(old(self).right, item));
        } else {
            if self.left.is_none() {
                return self.right.take();
            } else if self.right.is_none() {
                return self.left.take();
            } else {
                let mut right_min = self.right.take();
                let mut current = right_min.as_ref().unwrap();
                while current.left.is_some()
                    invariant
                        current.least() == old(self).right->0.least(),
                    decreases current,
                {
                    current = current.left.as_ref().unwrap();
                }
                self.item = current.item;
                right_min = right_min.unwrap().inner_remove(self.item);
                self.right = right_min;
            }
        }

        Some(Box::new(Node { item: self.item, left: self.left.take(), right: self.right.take() }))
    }

    /// Calls `callback`, if there is one, on the value of this node, then
    /// on the values of the left subtree, then on those of the right
    /// one. What the calls gave back is dropped when the program runs;
    /// the contract speaks of it as the ghost `returned`.
    pub fn inner_pre_order<F: Fn(Option<T>) -> Option<T>>(
        &self,
        callback: &Option<F>,
    ) -> (returned: Ghost<Seq<Option<T>>>)
        requires
            accepts_all(*callback, values_of(self.as_link())),
        ensures
            handed_each(*callback, pre_order_of(self.as_link()), returned@),
        decreases self,
    {
        let ghost mut items = Seq::<T>::empty();
        let ghost mut log = Seq::<Option<T>>::empty();
        proof {
            let values = values_of(self.as_link());
            assert(values.contains(self.item));
            lemma_accepts_part(*callback, values, values_of(self.left));
            lemma_accepts_part(*callback, values, values_of(self.right));
        }

        if let Some(call) = &callback {
            let answer = call(Some(self.item));
            proof {
                log = log.push(answer);
            }
        }
        proof {
            items = items.push(self.item);
        }

        if let Some(left) = &self.left {
            let below = left.inner_pre_order(&callback);
            proof {
                let more = pre_order_of(self.left);
                lemma_handed_each_in_a_row(*callback, items, log, more, below@);
                log = log + below@;
            }
        }
        proof {
            items = items + pre_order_of(self.left);
        }

        if let Some(right) = &self.right {
            let below = right.inner_pre_order(&callback);
            proof {
                let more = pre_order_of(self.right);
                lemma_handed_each_in_a_row(*callback, items, log, more, below@);
                log = log + below@;
            }
        }
        proof {
            assert(items + pre_order_of(self.right) =~= pre_order_of(self.as_link()));
        }
        Ghost(log)
    }

    /// Calls `callback`, if there is one, on the values of the left
    /// subtree, then on the value of this node, then on the values of
    /// the right subtree.
    pub fn inner_in_order<F: Fn(Option<T>) -> Option<T>>(
        &self,
        callback: &Option<F>,
    ) -> (returned: Ghost<Seq<Option<T>>>)
        requires
            accepts_all(*callback, values_of(self.as_link())),
        ensures
            handed_each(*callback, in_order_of(self.as_link()), returned@),
        decreases self,
    {
        let ghost mut items = Seq::<T>::empty();
        let ghost mut log = Seq::<Option<T>>::empty();
        proof {
            let values = values_of(self.as_link());
            assert(values.contains(self.item));
            lemma_accepts_part(*callback, values, values_of(self.left));
            lemma_accepts_part(*callback, values, values_of(self.right));
        }

        if let Some(left) = &self.left {
            let below = left.inner_in_order(&callback);
            proof {
                let more = in_order_of(self.left);
                lemma_handed_each_in_a_row(*callback, items, log, more, below@);
                log = log + below@;
            }
        }
        proof {
            items = items + in_order_of(self.left);
        }

        if let Some(call) = &callback {
            let answer = call(Some(self.item));
            proof {
                log = log.push(answer);
            }
        }
        proof {
            items = items.push(self.item);
        }

        if let Some(right) = &self.right {
            let below = right.inner_in_order(&callback);
            proof {
                let more = in_order_of(self.right);
                lemma_handed_each_in_a_row(*callback, items, log, more, below@);
                log = log + below@;
            }
        }
        proof {
            assert(items + in_order_of(self.right) =~= in_order_of(self.as_link()));
        }
        Ghost(log)
    }

    /// Calls `callback`, if there is one, on the values of the left
    /// subtree, then on those of the right one, then on the value of
    /// this node.
    pub fn inner_post_order<F: Fn(Option<T>) -> Option<T>>(
        &self,
        callback: &Option<F>,
    ) -> (returned: Ghost<Seq<Option<T>>>)
        requires
            accepts_all(*callback, values_of(self.as_link())),
        ensures
            handed_each(*callback, post_order_of(self.as_link()), returned@),
        decreases self,
    {
        let ghost mut items = Seq::<T>::empty();
        let ghost mut log = Seq::<Option<T>>::empty();
        proof {
            let values = values_of(self.as_link());
            assert(values.contains(self.item));
            lemma_accepts_part(*callback, values, values_of(self.left));
            lemma_accepts_part(*callback, values, values_of(self.right));
        }

        if let Some(left) = &self.left {
            let below = left.inner_post_order(&callback);
            proof {
                let more = post_order_of(self.left);
                lemma_handed_each_in_a_row(*callback, items, log, more, below@);
                log = log + below@;
            }
        }
        proof {
            items = items + post_order_of(self.left);
        }

        if let Some(right) = &self.right {
            let below = right.inner_post_order(&callback);
            proof {
                let more = post_order_of(self.right);
                lemma_handed_each_in_a_row(*callback, items, log, more, below@);
                log = log + below@;
            }
        }
        proof {
            items = items + post_order_of(self.right);
        }

        if let Some(call) = &callback {
            let answer = call(Some(self.item));
            proof {
                log = log.push(answer);
            }
        }
        proof {
            assert(items.push(self.item) =~= post_order_of(self.as_link()));
        }
        Ghost(log)
    }
}

} // verus!
