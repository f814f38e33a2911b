use crate::node::{Link, Node};
use crate::order::lt;
use vstd::prelude::*;

verus! {

/// The subtree with `item` at the top, `left` below it on one side and
/// `right` on the other.
pub open spec fn fork<T>(left: Link<T>, item: T, right: Link<T>) -> Link<T> {
    Some(Box::new(Node { item, left, right }))
}

/// The subtree that holds `item` and nothing else.
pub open spec fn leaf<T>(item: T) -> Link<T> {
    fork(None, item, None)
}

/// The values of a subtree, each node before its left subtree and the
/// left subtree before the right one.
pub open spec fn pre_order_of<T>(link: Link<T>) -> Seq<T>
    decreases link,
{
    match link {
        None => Seq::empty(),
        Some(node) => seq![node.item] + pre_order_of(node.left) + pre_order_of(node.right),
    }
}

/// The values of a subtree, each node after its left subtree and before
/// its right one.
pub open spec fn in_order_of<T>(link: Link<T>) -> Seq<T>
    decreases link,
{
    match link {
        None => Seq::empty(),
        Some(node) => in_order_of(node.left).push(node.item) + in_order_of(node.right),
    }
}

/// The values of a subtree, the left subtree before the right one and
/// each node after both.
pub open spec fn post_order_of<T>(link: Link<T>) -> Seq<T>
    decreases link,
{
    match link {
        None => Seq::empty(),
        Some(node) => (post_order_of(node.left) + post_order_of(node.right)).push(node.item),
    }
}

/// The set of values that a subtree holds.
pub open spec fn values_of<T>(link: Link<T>) -> Set<T>
    decreases link,
{
    match link {
        None => Set::empty(),
        Some(node) => values_of(node.left).union(values_of(node.right)).insert(node.item),
    }
}

/// The search-tree invariant: at every node, all that is in the left
/// subtree sorts before the node's value and all that is in the right
/// subtree sorts after it. No value then occurs twice.
pub open spec fn is_search_tree<T: PartialOrd>(link: Link<T>) -> bool
    decreases link,
{
    match link {
        None => true,
        Some(node) => {
            &&& is_search_tree(node.left)
            &&& is_search_tree(node.right)
            &&& forall|x: T| #[trigger] values_of(node.left).contains(x) ==> lt(x, node.item)
            &&& forall|x: T| #[trigger] values_of(node.right).contains(x) ==> lt(node.item, x)
        },
    }
}

/// The subtree after `item` went in: unchanged where a node on the way
/// down already holds `item`, else with a new leaf in the empty place
/// that the way down ends at.
pub open spec fn with_value<T: PartialOrd>(link: Link<T>, item: T) -> Link<T>
    decreases link,
{
    match link {
        None => leaf(item),
        Some(node) => if item == node.item {
            link
        } else if lt(item, node.item) {
            fork(with_value(node.left, item), node.item, node.right)
        } else {
            fork(node.left, node.item, with_value(node.right, item))
        },
    }
}

/// The subtree after `item` came out. The node that holds it gives way
/// to its only child if it has at most one; if it has two, it takes the
/// least value of its right subtree, and that value comes out below.
pub open spec fn without_value<T: PartialOrd>(link: Link<T>, item: T) -> Link<T>
    decreases link,
{
    match link {
        None => None,
        Some(node) => if lt(item, node.item) {
            fork(without_value(node.left, item), node.item, node.right)
        } else if lt(node.item, item) {
            fork(node.left, node.item, without_value(node.right, item))
        } else if node.left is None {
            node.right
        } else if node.right is None {
            node.left
        } else {
            let next = node.right->0.least();
            fork(node.left, next, without_value(node.right, next))
        },
    }
}

/// The node that the way down to `item` ends at, with all below it;
/// `None` where the way down ends at an empty place.
pub open spec fn subtree_at<T: PartialOrd>(link: Link<T>, item: T) -> Option<Node<T>>
    decreases link,
{
    match link {
        None => None,
        Some(node) => if item == node.item {
            Some(*node)
        } else if lt(item, node.item) {
            subtree_at(node.left, item)
        } else {
            subtree_at(node.right, item)
        },
    }
}

/// The subtree with `other` in the place of the node that the way down
/// to `item` ends at; unchanged where that way ends at an empty place.
pub open spec fn with_subtree_at<T: PartialOrd>(
    link: Link<T>,
    item: T,
    other: Node<T>,
) -> Link<T>
    decreases link,
{
    match link {
        None => None,
        Some(node) => if item == node.item {
            Some(Box::new(other))
        } else if lt(item, node.item) {
            fork(with_subtree_at(node.left, item, other), node.item, node.right)
        } else {
            fork(node.left, node.item, with_subtree_at(node.right, item, other))
        },
    }
}

impl<T> Node<T> {
    /// This node as the top of a subtree.
    pub open spec fn as_link(self) -> Link<T> {
        Some(Box::new(self))
    }

    /// The value of the leftmost node at or below this one.
    pub open spec fn least(self) -> T
        decreases self,
    {
        match self.left {
            None => self.item,
            Some(left) => left.least(),
        }
    }
}

} // verus!
