use crate::model::{
    in_order_of, is_search_tree, leaf, post_order_of, pre_order_of, subtree_at, values_of,
    with_subtree_at, with_value, without_value,
};
use crate::node::{Link, Node};
use crate::order::{lt, strictly_increasing, total_order};
use crate::visit::handed_each;
use vstd::prelude::*;
use vstd::seq_lib::{
    lemma_multiset_commutative, lemma_seq_union_to_multiset_commutative,
    seq_to_set_distributes_over_add, to_multiset_build,
};

verus! {

/// The three traversals of a subtree are rearrangements of one another.
pub proof fn lemma_traversals_rearrange<T>(link: Link<T>)
    ensures
        pre_order_of(link).to_multiset() == in_order_of(link).to_multiset(),
        post_order_of(link).to_multiset() == in_order_of(link).to_multiset(),
        pre_order_of(link).len() == in_order_of(link).len(),
        post_order_of(link).len() == in_order_of(link).len(),
    decreases link,
{
    match link {
        None => {},
        Some(node) => {
            lemma_traversals_rearrange(node.left);
            lemma_traversals_rearrange(node.right);
            broadcast use vstd::multiset::group_multiset_axioms;

            let here = Seq::<T>::empty().push(node.item);
            assert(seq![node.item] =~= here);
            let (pl, pr) = (pre_order_of(node.left), pre_order_of(node.right));
            let (il, ir) = (in_order_of(node.left), in_order_of(node.right));
            let (ql, qr) = (post_order_of(node.left), post_order_of(node.right));
            lemma_seq_union_to_multiset_commutative(here, pl);
            assert(pl + here =~= pl.push(node.item));
            to_multiset_build(pl, node.item);
            lemma_multiset_commutative(here + pl, pr);
            to_multiset_build(il, node.item);
            lemma_multiset_commutative(il.push(node.item), ir);
            lemma_multiset_commutative(ql, qr);
            to_multiset_build(ql + qr, node.item);
            assert(pre_order_of(link) == here + pl + pr);
            assert(pre_order_of(link).to_multiset() =~= in_order_of(link).to_multiset());
            assert(post_order_of(link).to_multiset() =~= in_order_of(link).to_multiset());
        },
    }
}

/// Every traversal of a subtree holds exactly the values of the subtree.
pub proof fn lemma_traversals_hold_values<T>(link: Link<T>)
    ensures
        pre_order_of(link).to_set() == values_of(link),
        in_order_of(link).to_set() == values_of(link),
        post_order_of(link).to_set() == values_of(link),
        values_of(link).finite(),
    decreases link,
{
    match link {
        None => {
            assert(Seq::<T>::empty().to_set() =~= Set::<T>::empty());
        },
        Some(node) => {
            lemma_traversals_hold_values(node.left);
            lemma_traversals_hold_values(node.right);
            let here = Seq::<T>::empty().push(node.item);
            assert(seq![node.item] =~= here);
            let (pl, pr) = (pre_order_of(node.left), pre_order_of(node.right));
            let (il, ir) = (in_order_of(node.left), in_order_of(node.right));
            let (ql, qr) = (post_order_of(node.left), post_order_of(node.right));
            Seq::<T>::empty().lemma_push_to_set_commute(node.item);
            assert(Seq::<T>::empty().to_set() =~= Set::<T>::empty());
            seq_to_set_distributes_over_add(here, pl);
            seq_to_set_distributes_over_add(here + pl, pr);
            il.lemma_push_to_set_commute(node.item);
            seq_to_set_distributes_over_add(il.push(node.item), ir);
            seq_to_set_distributes_over_add(ql, qr);
            (ql + qr).lemma_push_to_set_commute(node.item);
            assert(pre_order_of(link).to_set() =~= values_of(link));
            assert(in_order_of(link).to_set() =~= values_of(link));
            assert(post_order_of(link).to_set() =~= values_of(link));
        },
    }
}

/// In a search tree the in-order traversal is strictly increasing, so
/// no value occurs in it twice.
pub proof fn lemma_in_order_sorted<T: PartialOrd>(link: Link<T>)
    requires
        total_order::<T>(),
        is_search_tree(link),
    ensures
        strictly_increasing(in_order_of(link)),
        in_order_of(link).no_duplicates(),
    decreases link,
{
    match link {
        None => {},
        Some(node) => {
            lemma_in_order_sorted(node.left);
            lemma_in_order_sorted(node.right);
            lemma_traversals_hold_values(node.left);
            lemma_traversals_hold_values(node.right);
            let below = in_order_of(node.left);
            let above = in_order_of(node.right);
            let all = in_order_of(link);
            assert forall|i: int| 0 <= i < below.len() implies lt(
                #[trigger] below[i],
                node.item,
            ) by {
                assert(below.to_set().contains(below[i]));
            }
            assert forall|j: int| 0 <= j < above.len() implies lt(
                node.item,
                #[trigger] above[j],
            ) by {
                assert(above.to_set().contains(above[j]));
            }
            assert forall|i: int, j: int| 0 <= i < j < all.len() implies lt(
                #[trigger] all[i],
                #[trigger] all[j],
            ) by {
                if j < below.len() {
                    assert(all[i] == below[i] && all[j] == below[j]);
                } else if j == below.len() {
                    assert(all[i] == below[i] && all[j] == node.item);
                } else if i < below.len() {
                    assert(all[i] == below[i] && all[j] == above[j - below.len() - 1]);
                    assert(lt(below[i], node.item));
                } else if i == below.len() {
                    assert(all[i] == node.item && all[j] == above[j - below.len() - 1]);
                } else {
                    assert(all[i] == above[i - below.len() - 1]);
                    assert(all[j] == above[j - below.len() - 1]);
                }
            }
        },
    }
    let all = in_order_of(link);
    assert forall|i: int, j: int| 0 <= i < all.len() && 0 <= j < all.len() && i != j implies all[i]
        != all[j] by {
        if i < j {
            assert(lt(all[i], all[j]));
        } else {
            assert(lt(all[j], all[i]));
        }
    }
}

/// Putting a value into a search tree leaves a search tree that holds
/// that value and what was there before; the tree stays as it is if it
/// held the value already.
pub proof fn lemma_with_value<T: PartialOrd>(link: Link<T>, item: T)
    requires
        total_order::<T>(),
        is_search_tree(link),
    ensures
        is_search_tree(with_value(link, item)),
        values_of(with_value(link, item)) == values_of(link).insert(item),
        values_of(link).contains(item) ==> with_value(link, item) == link,
    decreases link,
{
    match link {
        None => {
            assert(values_of::<T>(None) =~= Set::<T>::empty());
            assert(values_of(leaf(item)) =~= Set::<T>::empty().insert(item));
            assert(with_value(link, item) == leaf(item));
        },
        Some(node) => {
            let (below, above) = (values_of(node.left), values_of(node.right));
            assert(values_of(link) == below.union(above).insert(node.item));
            if item == node.item {
                assert(values_of(link).insert(item) =~= values_of(link));
            } else if lt(item, node.item) {
                lemma_with_value(node.left, item);
                assert(!above.contains(item));
                assert(values_of(with_value(link, item)) =~= values_of(link).insert(item));
            } else {
                lemma_with_value(node.right, item);
                assert(!below.contains(item));
                assert(values_of(with_value(link, item)) =~= values_of(link).insert(item));
            }
        },
    }
}

/// The leftmost value of a search tree is one of its values and sorts
/// before all the others.
pub proof fn lemma_least<T: PartialOrd>(node: Node<T>)
    requires
        total_order::<T>(),
        is_search_tree(node.as_link()),
    ensures
        values_of(node.as_link()).contains(node.least()),
        forall|x: T| #[trigger]
            values_of(node.as_link()).contains(x) ==> x == node.least() || lt(node.least(), x),
    decreases node,
{
    let (below, above) = (values_of(node.left), values_of(node.right));
    assert(values_of(node.as_link()) == below.union(above).insert(node.item));
    match node.left {
        None => {
            assert(below =~= Set::<T>::empty());
        },
        Some(left) => {
            assert(left.as_link() == node.left);
            lemma_least(*left);
            assert(lt(node.least(), node.item));
        },
    }
}

/// Taking a value out of a search tree leaves a search tree that holds
/// what was there before but that value; the tree stays as it is if it
/// did not hold the value.
pub proof fn lemma_without_value<T: PartialOrd>(link: Link<T>, item: T)
    requires
        total_order::<T>(),
        is_search_tree(link),
    ensures
        is_search_tree(without_value(link, item)),
        values_of(without_value(link, item)) == values_of(link).remove(item),
        !values_of(link).contains(item) ==> without_value(link, item) == link,
    decreases link,
{
    match link {
        None => {
            assert(values_of(link).remove(item) =~= values_of(link));
        },
        Some(node) => {
            let (below, above) = (values_of(node.left), values_of(node.right));
            assert(values_of(link) == below.union(above).insert(node.item));
            assert(!below.contains(node.item) && !above.contains(node.item));
            if lt(item, node.item) {
                lemma_without_value(node.left, item);
                assert(!above.contains(item));
                assert(values_of(without_value(link, item)) =~= values_of(link).remove(item));
            } else if lt(node.item, item) {
                lemma_without_value(node.right, item);
                assert(!below.contains(item));
                assert(values_of(without_value(link, item)) =~= values_of(link).remove(item));
            } else {
                assert(item == node.item);
                if node.left is None {
                    assert(below =~= Set::<T>::empty());
                    assert(above =~= values_of(link).remove(item));
                } else if node.right is None {
                    assert(above =~= Set::<T>::empty());
                    assert(below =~= values_of(link).remove(item));
                } else {
                    let next = node.right->0.least();
                    assert(node.right->0.as_link() == node.right);
                    lemma_least(*node.right->0);
                    lemma_without_value(node.right, next);
                    assert(lt(node.item, next));
                    assert(values_of(without_value(link, item)) =~= values_of(link).remove(item));
                }
            }
        },
    }
}

/// In a search tree the way down to a value ends at a node exactly if
/// the tree holds the value, and that node holds it.
pub proof fn lemma_subtree_at<T: PartialOrd>(link: Link<T>, item: T)
    requires
        total_order::<T>(),
        is_search_tree(link),
    ensures
        subtree_at(link, item) is Some <==> values_of(link).contains(item),
        subtree_at(link, item) matches Some(node) ==> node.item == item,
    decreases link,
{
    match link {
        None => {},
        Some(node) => {
            let (below, above) = (values_of(node.left), values_of(node.right));
            assert(values_of(link) == below.union(above).insert(node.item));
            if item == node.item {
            } else if lt(item, node.item) {
                lemma_subtree_at(node.left, item);
                assert(!above.contains(item));
            } else {
                lemma_subtree_at(node.right, item);
                assert(!below.contains(item));
            }
        },
    }
}

/// Putting back the node that the way down to a value ends at changes
/// nothing, and where that way ends at an empty place there is nothing
/// to put a node in place of.
pub proof fn lemma_with_subtree_at_same<T: PartialOrd>(link: Link<T>, item: T, other: Node<T>)
    requires
        subtree_at(link, item) matches Some(node) ==> node == other,
    ensures
        with_subtree_at(link, item, other) == link,
    decreases link,
{
    match link {
        None => {},
        Some(node) => {
            if item == node.item {
            } else if lt(item, node.item) {
                lemma_with_subtree_at_same(node.left, item, other);
            } else {
                lemma_with_subtree_at_same(node.right, item, other);
            }
        },
    }
}

/// One change to a tree: a value goes in or comes out.
pub enum Update<T> {
    Insert(T),
    Remove(T),
}

/// The subtree after `updates` were made on it, first to last.
pub open spec fn after_updates<T: PartialOrd>(link: Link<T>, updates: Seq<Update<T>>) -> Link<T>
    decreases updates.len(),
{
    if updates.len() == 0 {
        link
    } else {
        let before = after_updates(link, updates.drop_last());
        match updates.last() {
            Update::Insert(item) => with_value(before, item),
            Update::Remove(item) => without_value(before, item),
        }
    }
}

/// The set after `updates` were made on it, first to last: what went in
/// and did not come out again since.
pub open spec fn values_after<T>(values: Set<T>, updates: Seq<Update<T>>) -> Set<T>
    decreases updates.len(),
{
    if updates.len() == 0 {
        values
    } else {
        let before = values_after(values, updates.drop_last());
        match updates.last() {
            Update::Insert(item) => before.insert(item),
            Update::Remove(item) => before.remove(item),
        }
    }
}

/// Whatever values go into a search tree and come out of it, in whatever
/// order, it stays a search tree, and its in-order traversal is strictly
/// increasing.
pub proof fn law_updates_keep_order<T: PartialOrd>(start: Link<T>, updates: Seq<Update<T>>)
    requires
        total_order::<T>(),
        is_search_tree(start),
    ensures
        is_search_tree(after_updates(start, updates)),
        strictly_increasing(in_order_of(after_updates(start, updates))),
    decreases updates.len(),
{
    if updates.len() > 0 {
        let before = after_updates(start, updates.drop_last());
        law_updates_keep_order(start, updates.drop_last());
        match updates.last() {
            Update::Insert(item) => lemma_with_value(before, item),
            Update::Remove(item) => lemma_without_value(before, item),
        }
    }
    lemma_in_order_sorted(after_updates(start, updates));
}

/// After any updates a search tree holds exactly the values that went
/// in and did not come out again since: a search finds those and no
/// others.
pub proof fn law_updates_track_values<T: PartialOrd>(start: Link<T>, updates: Seq<Update<T>>)
    requires
        total_order::<T>(),
        is_search_tree(start),
    ensures
        values_of(after_updates(start, updates)) == values_after(values_of(start), updates),
        forall|item: T|
            subtree_at(after_updates(start, updates), item) is Some <==> #[trigger] values_after(
                values_of(start),
                updates,
            ).contains(item),
    decreases updates.len(),
{
    if updates.len() > 0 {
        let before = after_updates(start, updates.drop_last());
        law_updates_keep_order(start, updates.drop_last());
        law_updates_track_values(start, updates.drop_last());
        match updates.last() {
            Update::Insert(item) => lemma_with_value(before, item),
            Update::Remove(item) => lemma_without_value(before, item),
        }
    }
    law_updates_keep_order(start, updates);
    assert forall|item: T|
        subtree_at(after_updates(start, updates), item) is Some <==> #[trigger] values_after(
            values_of(start),
            updates,
        ).contains(item) by {
        lemma_subtree_at(after_updates(start, updates), item);
    }
}

/// Putting a value in a second time changes nothing: the tree, and so
/// each of its traversals, is what it was after the first time.
pub proof fn law_insert_twice<T: PartialOrd>(link: Link<T>, item: T)
    ensures
        with_value(with_value(link, item), item) == with_value(link, item),
        in_order_of(with_value(with_value(link, item), item)) == in_order_of(
            with_value(link, item),
        ),
    decreases link,
{
    match link {
        None => {},
        Some(node) => {
            if item == node.item {
            } else if lt(item, node.item) {
                law_insert_twice(node.left, item);
            } else {
                law_insert_twice(node.right, item);
            }
        },
    }
}

/// After a value came out of a search tree, a search for it finds
/// nothing; every other value is there exactly if it was there before,
/// and the in-order traversal is strictly increasing.
pub proof fn law_remove_one_value<T: PartialOrd>(link: Link<T>, item: T)
    requires
        total_order::<T>(),
        is_search_tree(link),
    ensures
        !values_of(without_value(link, item)).contains(item),
        subtree_at(without_value(link, item), item) is None,
        forall|other: T|
            other != item ==> (#[trigger] values_of(without_value(link, item)).contains(other)
                <==> values_of(link).contains(other)),
        strictly_increasing(in_order_of(without_value(link, item))),
{
    lemma_without_value(link, item);
    lemma_subtree_at(without_value(link, item), item);
    lemma_in_order_sorted(without_value(link, item));
}

/// Each traversal of a search tree is as long as the tree has values.
pub proof fn lemma_traversals_count_values<T: PartialOrd>(link: Link<T>)
    requires
        total_order::<T>(),
        is_search_tree(link),
    ensures
        pre_order_of(link).len() == values_of(link).len(),
        in_order_of(link).len() == values_of(link).len(),
        post_order_of(link).len() == values_of(link).len(),
{
    lemma_traversals_rearrange(link);
    lemma_traversals_hold_values(link);
    lemma_in_order_sorted(link);
    in_order_of(link).unique_seq_to_set();
}

/// A traversal of a search tree, in any of the three orders, calls the
/// callback as many times as the tree has values.
pub proof fn law_one_call_per_value<T: PartialOrd, F: Fn(Option<T>) -> Option<T>>(
    link: Link<T>,
    call: F,
    returned: Seq<Option<T>>,
)
    requires
        total_order::<T>(),
        is_search_tree(link),
        handed_each(Some(call), pre_order_of(link), returned) || handed_each(
            Some(call),
            in_order_of(link),
            returned,
        ) || handed_each(Some(call), post_order_of(link), returned),
    ensures
        returned.len() == values_of(link).len(),
{
    lemma_traversals_count_values(link);
}

/// A search tree with one value gives that value alone in each of the
/// three orders.
pub proof fn law_single_value<T: PartialOrd>(link: Link<T>, item: T)
    requires
        total_order::<T>(),
        is_search_tree(link),
        values_of(link) == set![item],
    ensures
        pre_order_of(link) == seq![item],
        in_order_of(link) == seq![item],
        post_order_of(link) == seq![item],
{
    lemma_traversals_count_values(link);
    lemma_traversals_hold_values(link);
    assert(set![item].len() == 1) by {
        assert(set![item] =~= Set::<T>::empty().insert(item));
    }
    assert(pre_order_of(link).to_set().contains(pre_order_of(link)[0]));
    assert(in_order_of(link).to_set().contains(in_order_of(link)[0]));
    assert(post_order_of(link).to_set().contains(post_order_of(link)[0]));
    assert(pre_order_of(link) =~= seq![item]);
    assert(in_order_of(link) =~= seq![item]);
    assert(post_order_of(link) =~= seq![item]);
}

} // verus!
