use scapegoat::arena::Arena;
use scapegoat::node::Node;

const CAPACITY: usize = 1024;

#[test]
fn test_add_and_remove() {
    let mut arena: Arena<isize, &str, CAPACITY> = Arena::new();
    let n_1_idx = arena.add(1, "n/a");
    let n_2_idx = arena.add(2, "n/a");
    let n_3_idx = arena.add(3, "n/a");
    assert_eq!(n_1_idx, 0);
    assert_eq!(n_2_idx, 1);
    assert_eq!(n_3_idx, 2);
    let n_2_removed = arena.remove(n_2_idx).unwrap();
    assert_eq!(n_2_removed.key(), &2);
    assert!(!arena.is_occupied(1));
    let n_4_idx = arena.add(4, "n/a");
    assert_eq!(n_4_idx, 1);
    let n_5_idx = arena.add(5, "n/a");
    assert_eq!(n_5_idx, 3);
}

#[test]
fn test_index_mut() {
    let mut arena: Arena<isize, &str, CAPACITY> = Arena::new();
    let n_1_idx = arena.add(1, "n/a");
    assert_eq!(arena.get(n_1_idx).val(), &"n/a");
    arena.replace_entry(n_1_idx, 1, "This is a value. There are many like it but this one is mine.");
    assert_ne!(arena.get(n_1_idx).val(), &"n/a");
}

#[test]
fn test_index_1() {
    let mut arena: Arena<u64, &str, CAPACITY> = Arena::new();
    let n_1_idx = arena.add(0xD00DFEED_u64, "n/a");
    let n_1_ref = arena.get(n_1_idx);
    assert_eq!(n_1_ref.key(), &0xD00DFEED_u64);
}

#[test]
fn test_capacity() {
    let arena = Arena::<i8, u128, CAPACITY>::new();
    assert_eq!(arena.capacity(), CAPACITY);
    let arena = Arena::<i32, &str, 1337>::new();
    assert_eq!(arena.capacity(), 1337);
}

#[test]
fn free_list_is_lifo() {
    let mut arena: Arena<u32, u32, 8> = Arena::new();
    for k in 0..4u32 {
        arena.add(k, k);
    }
    arena.remove(1);
    arena.remove(3);
    assert_eq!(arena.add(10, 10), 3);
    assert_eq!(arena.add(11, 11), 1);
    assert_eq!(arena.add(12, 12), 4);
    assert_eq!(arena.len(), 5);
}

#[test]
fn remove_of_empty_slot_is_none() {
    let mut arena: Arena<u32, u32, 8> = Arena::new();
    arena.add(1, 1);
    assert!(arena.remove(0).is_some());
    assert!(arena.remove(0).is_none());
}

#[test]
fn links_are_set() {
    let mut arena: Arena<u32, u32, 8> = Arena::new();
    let a = arena.add(1, 1);
    let b = arena.add(2, 2);
    arena.set_left(b, Some(a));
    arena.set_right(a, Some(b));
    assert_eq!(arena.get(b).left_idx(), Some(a));
    assert_eq!(arena.get(a).right_idx(), Some(b));
    arena.set_left(b, None);
    assert_eq!(arena.get(b).left_idx(), None);
}

#[test]
fn test_node_sizing() {
    assert_eq!(std::mem::size_of::<Node<u32, u32>>(), 16);
}

#[test]
fn test_sort() {
    let mut arena = Arena::<usize, &str, CAPACITY>::new();
    // Simple 3-node tree: 2 at the root, 1 on its left, 3 on its right.
    arena.add(3, "n/a");
    let n_2_idx = arena.add(2, "n/a");
    arena.add(1, "n/a");
    arena.set_left(n_2_idx, Some(2));
    arena.set_right(n_2_idx, Some(0));
    // Unsorted (insertion order)
    assert_eq!(arena.get(0).key(), &3);
    assert_eq!(arena.get(1).key(), &2);
    assert_eq!(arena.get(2).key(), &1);
    // In-order listing of the tree above
    arena.sort(&vec![2, 1, 0]);
    // Sorted (logical order), links moved along
    assert_eq!(arena.get(0).key(), &1);
    assert_eq!(arena.get(1).key(), &2);
    assert_eq!(arena.get(2).key(), &3);
    assert_eq!(arena.get(1).left_idx(), Some(0));
    assert_eq!(arena.get(1).right_idx(), Some(2));
}

#[test]
fn sort_puts_free_slots_last() {
    let mut arena = Arena::<u32, u32, 8>::new();
    for k in 0..4u32 {
        arena.add(k, k);
    }
    arena.remove(0);
    arena.remove(2);
    arena.sort(&vec![1, 3]);
    assert_eq!(arena.get(0).key(), &1);
    assert_eq!(arena.get(1).key(), &3);
    assert!(!arena.is_occupied(2));
    assert_eq!(arena.add(9, 9), 2);
    assert_eq!(arena.add(8, 8), 3);
}

#[test]
fn hard_remove_returns_node() {
    let mut arena: Arena<u32, &str, 8> = Arena::new();
    let i = arena.add(7, "seven");
    let n = arena.hard_remove(i);
    assert_eq!((n.key(), n.val()), (&7, &"seven"));
    assert!(!arena.is_occupied(i));
}

#[test]
fn try_add_reports_full_arena() {
    let mut arena: Arena<u32, u32, 2> = Arena::new();
    assert_eq!(arena.try_add(1, 1), Ok(0));
    assert_eq!(arena.try_add(2, 2), Ok(1));
    assert_eq!(arena.try_add(3, 3), Err(scapegoat::SgError::StackCapacityExceeded));
    arena.remove(0);
    assert_eq!(arena.try_add(4, 4), Ok(0));
}

#[test]
fn get_val_mut_writes_value() {
    let mut arena: Arena<u32, u32, 4> = Arena::new();
    let i = arena.add(1, 10);
    *arena.get_val_mut(i) = 11;
    assert_eq!(arena.get(i).val(), &11);
}
