use escapegoat::arena::{Arena, Node};
use escapegoat::SgError;

fn leaf(key: usize, val: usize) -> Node<usize, usize> {
    Node { key, val, left: None, right: None, size: 1 }
}

#[test]
fn test_arena_allocates_in_order() {
    let mut arena = Arena::<usize, usize, 3>::new();
    assert_eq!(arena.allocate(leaf(10, 1)), Ok(0));
    assert_eq!(arena.allocate(leaf(20, 2)), Ok(1));
    assert_eq!(arena.allocate(leaf(30, 3)), Ok(2));
    assert_eq!(arena.allocate(leaf(40, 4)).err(), Some(SgError::StackCapacityExceeded));
    assert_eq!(arena.get(1).key, 20);
    assert_eq!(arena.get(2).val, 3);
}

#[test]
fn test_arena_reuses_freed_slots() {
    let mut arena = Arena::<usize, usize, 3>::new();
    for k in 0..3 {
        assert!(arena.allocate(leaf(k, k)).is_ok());
    }
    let node = arena.free(1);
    assert_eq!((node.key, node.val), (1, 1));
    let node = arena.free(0);
    assert_eq!((node.key, node.val), (0, 0));
    // the slot freed last is taken first
    assert_eq!(arena.allocate(leaf(7, 7)), Ok(0));
    assert_eq!(arena.allocate(leaf(8, 8)), Ok(1));
    assert!(arena.allocate(leaf(9, 9)).is_err());
    assert_eq!(arena.get(0).key, 7);
    assert_eq!(arena.get(1).key, 8);
    assert_eq!(arena.get(2).key, 2);
}

#[test]
fn test_arena_get_mut_and_reset() {
    let mut arena = Arena::<usize, usize, 2>::new();
    assert_eq!(arena.allocate(leaf(1, 1)), Ok(0));
    arena.get_mut(0).val = 5;
    arena.get_mut(0).size = 2;
    assert_eq!(arena.get(0).val, 5);
    assert_eq!(arena.get(0).size, 2);
    arena.reset();
    assert_eq!(arena.allocate(leaf(3, 3)), Ok(0));
    assert_eq!(arena.allocate(leaf(4, 4)), Ok(1));
    assert!(arena.allocate(leaf(5, 5)).is_err());
}

#[test]
fn test_arena_without_slots() {
    let mut arena = Arena::<usize, usize, 0>::new();
    assert!(arena.allocate(leaf(1, 1)).is_err());
}
