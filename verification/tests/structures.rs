use sorting::balance;
use sorting::bin_tree;
use sorting::double_list::DbList;
use sorting::linked_list::LinkedList;

#[test]
fn linked_list_push_and_insert_sorted() {
    let mut l = LinkedList::new();
    l.push_front(1);
    l.push_back(2);
    l.push_back(4);
    l.insert_sorted(19);
    l.insert_sorted(3);
    l.insert_sorted(5);
    l.insert_sorted(0);
    assert_eq!(l.to_vec(), vec![0, 1, 2, 3, 4, 5, 19]);
}

#[test]
fn linked_list_insert_sorted_duplicates() {
    let mut l = LinkedList::new();
    l.insert_sorted(5);
    l.insert_sorted(5);
    l.insert_sorted(1);
    l.insert_sorted(5);
    assert_eq!(l.to_vec(), vec![1, 5, 5, 5]);
}

#[test]
fn bin_tree_in_order_is_sorted() {
    let mut bt = bin_tree::BinTree::new();
    bt.add_sorted(5);
    bt.add_sorted(1);
    bt.add_sorted(8);
    bt.add_sorted(10);
    bt.add_sorted(-1);
    assert_eq!(bt.to_vec(), vec![-1, 1, 5, 8, 10]);
}

#[test]
fn bin_tree_duplicates_kept() {
    let mut bt = bin_tree::BinTree::new();
    bt.add_sorted(3);
    bt.add_sorted(3);
    bt.add_sorted(3);
    assert_eq!(bt.to_vec(), vec![3, 3, 3]);
}

#[test]
fn balance_tree_in_order_is_sorted() {
    let mut bt = balance::BinTree::new();
    bt.add_sorted(5);
    bt.add_sorted(1);
    bt.add_sorted(8);
    bt.add_sorted(10);
    bt.add_sorted(-1);
    bt.add_sorted(111711);
    assert_eq!(bt.to_vec(), vec![-1, 1, 5, 8, 10, 111711]);
}

#[test]
fn balance_tree_rotates_on_skewed_insertion() {
    let mut bt = balance::BinTree::new();
    for x in 0..20 {
        bt.add_sorted(x);
    }
    assert_eq!(bt.to_vec(), (0..20).collect::<Vec<i32>>());
    // without rotations a purely ascending insertion would leave a chain of
    // height 20; the rotations keep the stored root height well below that
    assert!(bt.height() >= 5);
    assert!(bt.height() < 20);
}

#[test]
fn balance_tree_rotation_preserves_elements() {
    let mut bt = balance::BinTree::new();
    bt.add_sorted(2);
    bt.add_sorted(1);
    bt.add_sorted(3);
    bt.rot_left();
    bt.rot_right();
    let mut v = bt.to_vec();
    v.sort();
    assert_eq!(v, vec![1, 2, 3]);
}

#[test]
fn double_list_push_both_ends() {
    let mut d = DbList::new();
    d.push_front(6);
    d.push_back(10);
    assert_eq!(d.to_vec(), vec![6, 10]);
}

#[test]
fn double_list_order_of_insertion_kept() {
    let mut d = DbList::new();
    d.push_back(1);
    d.push_back(2);
    d.push_front(0);
    d.push_back(3);
    d.push_front(-1);
    assert_eq!(d.to_vec(), vec![-1, 0, 1, 2, 3]);
}
