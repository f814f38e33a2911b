use std::cell::RefCell;
use std::rc::Rc;

use binary_tree::implementation::ConcreteBinaryTree;
use binary_tree::interface::IBinaryTree;
use binary_tree::service::BinaryTree;
use binary_tree::visit::Callback;

type Log = Rc<RefCell<Vec<i32>>>;

fn record_into(log: &Log) -> impl Fn(Option<i32>) -> Option<i32> + 'static {
    let sink = Rc::clone(log);
    move |x: Option<i32>| {
        if let Some(item) = x {
            sink.borrow_mut().push(item);
        }
        None
    }
}

fn taken(log: &Log) -> Vec<i32> {
    let seen = log.borrow().clone();
    log.borrow_mut().clear();
    seen
}

#[test]
fn in_order_of_seven_inserts_is_sorted() {
    let log: Log = Rc::new(RefCell::new(Vec::new()));
    let mut tree = BinaryTree::new();
    tree.set_callback(record_into(&log));
    for item in [5, 3, 7, 2, 4, 6, 8] {
        tree.insert(item);
    }
    tree.in_order();
    assert_eq!(taken(&log), vec![2, 3, 4, 5, 6, 7, 8]);
}

#[test]
fn removing_the_root_promotes_its_successor() {
    let log: Log = Rc::new(RefCell::new(Vec::new()));
    let mut tree = BinaryTree::new();
    tree.set_callback(record_into(&log));
    for item in [5, 3, 7, 2, 4, 6, 8] {
        tree.insert(item);
    }
    tree.remove(5);
    tree.in_order();
    assert_eq!(taken(&log), vec![2, 3, 4, 6, 7, 8]);
    tree.pre_order();
    assert_eq!(taken(&log), vec![6, 3, 2, 4, 7, 8]);
    tree.post_order();
    assert_eq!(taken(&log), vec![2, 4, 3, 8, 7, 6]);
}

#[test]
fn pre_order_visits_a_node_before_its_subtrees() {
    let log: Log = Rc::new(RefCell::new(Vec::new()));
    let mut tree = BinaryTree::new();
    tree.set_callback(record_into(&log));
    for item in [5, 3, 7, 2, 4, 6, 8] {
        tree.insert(item);
    }
    tree.pre_order();
    assert_eq!(taken(&log), vec![5, 3, 2, 4, 7, 6, 8]);
}

#[test]
fn post_order_visits_a_node_after_its_subtrees() {
    let log: Log = Rc::new(RefCell::new(Vec::new()));
    let mut tree = BinaryTree::new();
    tree.set_callback(record_into(&log));
    for item in [5, 3, 7, 2, 4, 6, 8] {
        tree.insert(item);
    }
    tree.post_order();
    assert_eq!(taken(&log), vec![2, 4, 3, 6, 8, 7, 5]);
}

#[test]
fn empty_tree_finds_nothing_and_calls_nothing() {
    let log: Log = Rc::new(RefCell::new(Vec::new()));
    let mut tree = BinaryTree::new();
    tree.set_callback(record_into(&log));
    assert_eq!(tree.search(1), None);
    tree.pre_order();
    tree.in_order();
    tree.post_order();
    assert_eq!(taken(&log), Vec::<i32>::new());
}

#[test]
fn insert_then_remove_leaves_an_empty_tree() {
    let log: Log = Rc::new(RefCell::new(Vec::new()));
    let mut tree = BinaryTree::new();
    tree.set_callback(record_into(&log));
    tree.insert(10);
    assert_eq!(tree.search(10), Some(10));
    tree.remove(10);
    assert_eq!(tree.search(10), None);
    tree.in_order();
    assert_eq!(taken(&log), Vec::<i32>::new());
}

#[test]
fn in_order_stays_sorted_through_inserts_and_removals() {
    let log: Log = Rc::new(RefCell::new(Vec::new()));
    let mut tree = BinaryTree::new();
    tree.set_callback(record_into(&log));
    for item in [50, 20, 70, 10, 30, 60, 80, 25, 35, 65] {
        tree.insert(item);
    }
    tree.remove(20);
    tree.remove(70);
    tree.insert(5);
    tree.remove(50);
    tree.insert(70);
    tree.remove(999);
    tree.in_order();
    assert_eq!(taken(&log), vec![5, 10, 25, 30, 35, 60, 65, 70, 80]);
    tree.pre_order();
    assert_eq!(taken(&log), vec![60, 25, 10, 5, 30, 35, 80, 65, 70]);
}

#[test]
fn inserting_twice_is_inserting_once() {
    let log: Log = Rc::new(RefCell::new(Vec::new()));
    let mut once = BinaryTree::new();
    once.set_callback(record_into(&log));
    let mut twice = BinaryTree::new();
    twice.set_callback(record_into(&log));
    for item in [4, 2, 6] {
        once.insert(item);
        twice.insert(item);
    }
    twice.insert(2);
    twice.insert(4);
    twice.insert(6);
    once.in_order();
    let first = taken(&log);
    twice.in_order();
    let second = taken(&log);
    assert_eq!(first, vec![2, 4, 6]);
    assert_eq!(second, first);
    once.pre_order();
    let first = taken(&log);
    twice.pre_order();
    assert_eq!(taken(&log), first);
}

#[test]
fn search_finds_what_was_inserted_and_not_removed() {
    let mut tree: BinaryTree<i32> = BinaryTree::new();
    for item in [8, 3, 10, 1, 6, 14, 4, 7, 13] {
        tree.insert(item);
    }
    for item in [8, 3, 10, 1, 6, 14, 4, 7, 13] {
        assert_eq!(tree.search(item), Some(item));
    }
    for item in [0, 2, 5, 9, 11, 12, 15, -1] {
        assert_eq!(tree.search(item), None);
    }
    tree.remove(6);
    tree.remove(14);
    assert_eq!(tree.search(6), None);
    assert_eq!(tree.search(14), None);
    for item in [8, 3, 10, 1, 4, 7, 13] {
        assert_eq!(tree.search(item), Some(item));
    }
}

#[test]
fn remove_takes_out_one_value_and_keeps_the_rest() {
    let log: Log = Rc::new(RefCell::new(Vec::new()));
    let mut tree = BinaryTree::new();
    tree.set_callback(record_into(&log));
    for item in [8, 3, 10, 1, 6, 14, 4, 7, 13] {
        tree.insert(item);
    }
    tree.remove(3);
    assert_eq!(tree.search(3), None);
    tree.in_order();
    assert_eq!(taken(&log), vec![1, 4, 6, 7, 8, 10, 13, 14]);
    tree.pre_order();
    assert_eq!(taken(&log), vec![8, 4, 1, 6, 7, 10, 14, 13]);
}

#[test]
fn removing_an_absent_value_changes_nothing() {
    let log: Log = Rc::new(RefCell::new(Vec::new()));
    let mut tree = BinaryTree::new();
    tree.set_callback(record_into(&log));
    tree.remove(1);
    for item in [5, 3, 7] {
        tree.insert(item);
    }
    tree.remove(4);
    tree.remove(9);
    tree.pre_order();
    assert_eq!(taken(&log), vec![5, 3, 7]);
}

#[test]
fn removing_a_node_with_one_child_lifts_the_child() {
    let log: Log = Rc::new(RefCell::new(Vec::new()));
    let mut tree = BinaryTree::new();
    tree.set_callback(record_into(&log));
    for item in [5, 3, 2, 8, 9] {
        tree.insert(item);
    }
    tree.remove(3);
    tree.pre_order();
    assert_eq!(taken(&log), vec![5, 2, 8, 9]);
    tree.remove(8);
    tree.pre_order();
    assert_eq!(taken(&log), vec![5, 2, 9]);
    tree.remove(5);
    tree.remove(9);
    tree.pre_order();
    assert_eq!(taken(&log), vec![2]);
}

#[test]
fn each_traversal_calls_once_per_distinct_value() {
    let log: Log = Rc::new(RefCell::new(Vec::new()));
    let mut tree = BinaryTree::new();
    tree.set_callback(record_into(&log));
    for item in [5, 3, 5, 7, 3, 3, 9, 7] {
        tree.insert(item);
    }
    tree.pre_order();
    assert_eq!(taken(&log).len(), 4);
    tree.in_order();
    assert_eq!(taken(&log).len(), 4);
    tree.post_order();
    assert_eq!(taken(&log).len(), 4);
    tree.remove(7);
    tree.in_order();
    assert_eq!(taken(&log).len(), 3);
}

#[test]
fn one_value_reads_the_same_in_every_order() {
    let log: Log = Rc::new(RefCell::new(Vec::new()));
    let mut tree = BinaryTree::new();
    tree.set_callback(record_into(&log));
    tree.insert(42);
    tree.pre_order();
    assert_eq!(taken(&log), vec![42]);
    tree.in_order();
    assert_eq!(taken(&log), vec![42]);
    tree.post_order();
    assert_eq!(taken(&log), vec![42]);
}

#[test]
fn sorted_input_gives_a_tree_that_leans_one_way() {
    let log: Log = Rc::new(RefCell::new(Vec::new()));
    let mut tree = BinaryTree::new();
    tree.set_callback(record_into(&log));
    for item in 1..=6 {
        tree.insert(item);
    }
    tree.pre_order();
    assert_eq!(taken(&log), vec![1, 2, 3, 4, 5, 6]);
    tree.post_order();
    assert_eq!(taken(&log), vec![6, 5, 4, 3, 2, 1]);
    tree.remove(1);
    tree.remove(4);
    tree.in_order();
    assert_eq!(taken(&log), vec![2, 3, 5, 6]);
}

#[test]
fn a_new_callback_replaces_the_old_one() {
    let first: Log = Rc::new(RefCell::new(Vec::new()));
    let second: Log = Rc::new(RefCell::new(Vec::new()));
    let mut tree: BinaryTree<i32, Box<dyn Fn(Option<i32>) -> Option<i32>>> = BinaryTree::new();
    tree.set_callback(Box::new(record_into(&first)));
    tree.insert(1);
    tree.insert(2);
    tree.set_callback(Box::new(record_into(&second)));
    tree.in_order();
    assert_eq!(taken(&first), Vec::<i32>::new());
    assert_eq!(taken(&second), vec![1, 2]);
}

#[test]
fn traversal_without_a_callback_does_nothing() {
    let mut tree: BinaryTree<i32> = BinaryTree::new();
    tree.insert(2);
    tree.insert(1);
    tree.pre_order();
    tree.in_order();
    tree.post_order();
    assert_eq!(tree.search(1), Some(1));
    assert_eq!(tree.search(2), Some(2));
}

#[test]
fn callback_is_handed_some_value_and_its_answer_is_dropped() {
    fn refuse_none(x: Option<i32>) -> Option<i32> {
        assert!(x.is_some());
        x
    }
    let callback: Callback<i32> = refuse_none;
    let mut tree = BinaryTree::<i32>::new();
    tree.set_callback(callback);
    for item in [5, 3, 7] {
        tree.insert(item);
    }
    tree.pre_order();
    tree.in_order();
    tree.post_order();
    for item in [5, 3, 7] {
        assert_eq!(tree.search(item), Some(item));
    }
}

#[test]
fn concrete_tree_behaves_as_the_service_does() {
    let log: Log = Rc::new(RefCell::new(Vec::new()));
    let mut tree = ConcreteBinaryTree::new();
    tree.set_callback(record_into(&log));
    assert_eq!(tree.search(5), None);
    for item in [5, 3, 7, 2, 4, 6, 8] {
        tree.insert(item);
    }
    assert_eq!(tree.search(4), Some(4));
    tree.remove(5);
    assert_eq!(tree.search(5), None);
    tree.in_order();
    assert_eq!(taken(&log), vec![2, 3, 4, 6, 7, 8]);
    tree.pre_order();
    assert_eq!(taken(&log), vec![6, 3, 2, 4, 7, 8]);
}

#[test]
fn unsigned_and_wide_values_are_ordered_too() {
    let mut tree: ConcreteBinaryTree<u64> = ConcreteBinaryTree::new();
    for item in [u64::MAX, 0, 1 << 40, 17] {
        tree.insert(item);
    }
    assert_eq!(tree.search(u64::MAX), Some(u64::MAX));
    assert_eq!(tree.search(0), Some(0));
    assert_eq!(tree.search(16), None);
    tree.remove(0);
    assert_eq!(tree.search(0), None);
    assert_eq!(tree.search(17), Some(17));
}
