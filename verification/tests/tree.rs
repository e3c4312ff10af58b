use binarytree::ChildSide;
use binarytree::DerefGuard;
use binarytree::DuplicateValue;
use binarytree::EmptyTree;
use binarytree::LockFreeBinaryTree;
use binarytree::Node;
use binarytree::NotFound;
use binarytree::SearchResult;

#[test]
fn push_test() {
    let mut tree = LockFreeBinaryTree::new();
    assert!(tree.push(123));
    assert_eq!(123, tree.find(123).unwrap().deref());
}

#[test]
fn insert_find_delete_round() {
    let mut tree = LockFreeBinaryTree::new();
    assert!(tree.push(5));
    assert!(!tree.push(5));
    assert_eq!(Err(DuplicateValue), tree.insert(5));
    assert_eq!(5, tree.find(5).unwrap().deref());
    assert_eq!(Ok(()), tree.delete(5));
    assert!(tree.find(5).is_none());
    assert_eq!(Err(NotFound), tree.delete(5));
}

#[test]
fn in_order_same_for_any_arrival_order() {
    let orders: [[u64; 3]; 6] =
        [[5, 3, 8], [5, 8, 3], [3, 5, 8], [3, 8, 5], [8, 3, 5], [8, 5, 3]];
    for order in orders {
        let mut tree = LockFreeBinaryTree::new();
        for v in order {
            assert!(tree.push(v));
        }
        assert_eq!(vec![3, 5, 8], tree.in_order());
    }
}

#[test]
fn no_lost_inserts() {
    let mut tree = LockFreeBinaryTree::new();
    for v in 0..32u64 {
        assert!(tree.push(v * 7 % 32));
    }
    for v in 0..32u64 {
        assert_eq!(v, tree.find(v).unwrap().deref());
    }
}

#[test]
fn duplicate_insert_accepted_once() {
    let mut tree = LockFreeBinaryTree::new();
    let first = tree.push(42);
    let second = tree.push(42);
    assert!(first);
    assert!(!second);
    assert_eq!(vec![42], tree.in_order());
}

#[test]
fn guard_outlives_delete() {
    let mut tree = LockFreeBinaryTree::new();
    assert!(tree.push(5));
    assert!(tree.push(3));
    assert!(tree.push(8));
    let guard = tree.find(5).unwrap();
    assert_eq!(Ok(()), tree.delete(5));
    assert_eq!(5, guard.deref());
    assert!(tree.find(5).is_none());
}

#[test]
fn delete_missing_reports_not_found() {
    let mut tree = LockFreeBinaryTree::new();
    assert_eq!(Err(NotFound), tree.delete(9));
    assert!(tree.push(1));
    assert_eq!(Err(NotFound), tree.delete(2));
    assert_eq!(Ok(()), tree.delete(1));
    assert_eq!(Err(NotFound), tree.delete(1));
}

#[test]
fn delete_with_two_children_leaves_tombstone() {
    let mut tree = LockFreeBinaryTree::new();
    assert!(tree.push(5));
    assert!(tree.push(3));
    assert!(tree.push(8));
    assert_eq!(Ok(()), tree.delete(5));
    assert!(tree.find(5).is_none());
    assert_eq!(vec![3, 8], tree.in_order());
    assert_eq!(
        Ok(SearchResult::InsertionPoint(5, ChildSide::Left)),
        tree.relaxed_search(5)
    );
    assert!(tree.push(5));
    assert_eq!(5, tree.find(5).unwrap().deref());
    assert_eq!(vec![3, 5, 8], tree.in_order());
}

#[test]
fn delete_leaf_and_single_child_unlink() {
    let mut tree = LockFreeBinaryTree::new();
    assert!(tree.push(5));
    assert!(tree.push(3));
    assert_eq!(Ok(()), tree.delete(3));
    assert_eq!(vec![5], tree.in_order());
    assert!(tree.push(3));
    assert!(tree.push(2));
    assert_eq!(Ok(()), tree.delete(3));
    assert_eq!(vec![2, 5], tree.in_order());
    assert_eq!(Ok(()), tree.delete(5));
    assert_eq!(Ok(()), tree.delete(2));
    assert!(tree.in_order().is_empty());
}

#[test]
fn search_walker_outcomes() {
    let empty = LockFreeBinaryTree::new();
    assert_eq!(Err(EmptyTree), empty.relaxed_search(1));
    let mut tree = LockFreeBinaryTree::new();
    assert!(tree.push(5));
    assert!(tree.push(3));
    assert!(tree.push(8));
    assert_eq!(Ok(SearchResult::Found(5)), tree.relaxed_search(5));
    assert_eq!(Ok(SearchResult::Found(3)), tree.relaxed_search(3));
    assert_eq!(Ok(SearchResult::Found(8)), tree.relaxed_search(8));
    assert_eq!(
        Ok(SearchResult::InsertionPoint(3, ChildSide::Left)),
        tree.relaxed_search(2)
    );
    assert_eq!(
        Ok(SearchResult::InsertionPoint(3, ChildSide::Right)),
        tree.relaxed_search(4)
    );
    assert_eq!(
        Ok(SearchResult::InsertionPoint(8, ChildSide::Left)),
        tree.relaxed_search(6)
    );
    assert_eq!(
        Ok(SearchResult::InsertionPoint(8, ChildSide::Right)),
        tree.relaxed_search(9)
    );
}

#[test]
fn detached_node_is_searchable() {
    let node = Node::leaky(7);
    assert_eq!(SearchResult::Found(7), node.relaxed_search(7));
    assert_eq!(
        SearchResult::InsertionPoint(7, ChildSide::Left),
        node.relaxed_search(6)
    );
    assert_eq!(
        SearchResult::InsertionPoint(7, ChildSide::Right),
        node.relaxed_search(8)
    );
}

#[test]
fn guard_reports_its_value() {
    let guard = DerefGuard::new(11);
    assert_eq!(11, guard.deref());
}

#[test]
fn in_order_of_empty_tree_is_empty() {
    let tree = LockFreeBinaryTree::new();
    assert!(tree.in_order().is_empty());
}

#[test]
fn ordering_invariant_after_mixed_operations() {
    let mut tree = LockFreeBinaryTree::new();
    let values: [u64; 9] = [50, 20, 70, 10, 30, 60, 80, 25, 65];
    for v in values {
        assert!(tree.push(v));
    }
    assert_eq!(Ok(()), tree.delete(20));
    assert_eq!(Ok(()), tree.delete(80));
    assert_eq!(Ok(()), tree.delete(50));
    assert!(tree.push(55));
    let listing = tree.in_order();
    assert_eq!(vec![10, 25, 30, 55, 60, 65, 70], listing);
    for pair in listing.windows(2) {
        assert!(pair[0] < pair[1]);
    }
    for v in listing {
        assert_eq!(v, tree.find(v).unwrap().deref());
    }
}
