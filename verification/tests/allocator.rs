use sanguine::allocator::{NodeId, Slab};

#[test]
fn basic() {
    let mut slab = Slab::<u32>::new();

    let key1 = slab.insert(1);
    let key2 = slab.insert(2);
    slab.insert(3);
    slab.insert(4);
    slab.insert(5);
    let key3 = slab.insert(6);
    slab.remove(key3);

    assert_eq!(slab.get(key3), None);

    assert_eq!(slab.capacity(), 8);
    assert_eq!(slab.len(), 5);

    assert_eq!(slab.get(key1), Some(&1));
    assert_eq!(slab.get_mut(key2), Some(&mut 2));
}

#[test]
fn a_removed_handle_reaches_nothing() {
    let mut slab = Slab::<&str>::new();
    let a = slab.insert("a");
    assert!(slab.contains(a));
    assert_eq!(slab.remove(a), Some("a"));
    assert_eq!(slab.get(a), None);
    assert_eq!(slab.get_mut(a), None);
    assert_eq!(slab.remove(a), None);
    assert!(!slab.contains(a));
    assert!(!slab.set(a, "b"));
    assert_eq!(slab.len(), 0);
}

#[test]
fn a_slot_that_is_used_again_gets_a_new_handle() {
    let mut slab = Slab::<u32>::with_capacity(1);
    let first = slab.insert(1);
    slab.remove(first);
    let second = slab.insert(2);
    assert_eq!(first.into_raw().0, second.into_raw().0);
    assert_ne!(first, second);
    assert_ne!(first.into_raw().1, second.into_raw().1);
    assert_eq!(slab.get(first), None);
    assert_eq!(slab.get(second), Some(&2));
    assert_eq!(slab.capacity(), 1);
}

#[test]
fn free_slots_are_used_in_the_order_in_which_they_were_freed() {
    let mut slab = Slab::<u32>::new();
    let keys: Vec<NodeId> = (0..4).map(|i| slab.insert(i)).collect();
    assert_eq!(slab.capacity(), 4);
    slab.remove(keys[2]);
    slab.remove(keys[0]);
    let a = slab.insert(10);
    let b = slab.insert(11);
    assert_eq!(a.into_raw().0, 2);
    assert_eq!(b.into_raw().0, 0);
    assert_eq!(slab.capacity(), 4);
    // No slot is free: the next value makes the slab grow to twice its size.
    let c = slab.insert(12);
    assert_eq!(c.into_raw().0, 4);
    assert_eq!(slab.capacity(), 8);
    assert_eq!(slab.len(), 5);
    assert_eq!(slab.get(keys[1]), Some(&1));
    assert_eq!(slab.get(keys[3]), Some(&3));
}

#[test]
fn generations_are_even_while_a_slot_is_taken() {
    let mut slab = Slab::<u8>::new();
    let key = slab.insert(0);
    assert_eq!(key.into_raw(), (0, 2));
    assert_eq!(NodeId::from_raw(0, 2), key);
    slab.remove(key);
    assert_eq!(slab.insert(1).into_raw(), (1, 2));
    assert_eq!(slab.get(NodeId::from_raw(0, 3)), None);
    assert_eq!(slab.get(NodeId::from_raw(0, 1)), None);
    assert_eq!(slab.get(NodeId::from_raw(99, 2)), None);
}

#[test]
fn values_can_be_changed_in_place() {
    let mut slab = Slab::<String>::new();
    let key = slab.insert("a".to_string());
    slab.get_mut(key).unwrap().push('b');
    assert_eq!(slab.get(key).map(String::as_str), Some("ab"));
    assert!(slab.set(key, "c".to_string()));
    assert_eq!(slab.get(key).map(String::as_str), Some("c"));
}

#[test]
fn retain_drops_what_the_test_refuses() {
    let mut slab = Slab::<u32>::new();
    let keys: Vec<NodeId> = (0..6).map(|i| slab.insert(i)).collect();
    slab.retain(|_, v| v % 2 == 0);
    assert_eq!(slab.len(), 3);
    assert_eq!(slab.capacity(), 8);
    for (i, key) in keys.iter().enumerate() {
        if i % 2 == 0 {
            assert_eq!(slab.get(*key), Some(&(i as u32)));
        } else {
            assert_eq!(slab.get(*key), None);
        }
    }
    slab.retain(|k, _| k == keys[4]);
    assert_eq!(slab.len(), 1);
    assert_eq!(slab.get(keys[4]), Some(&4));
}

#[test]
fn room_is_counted() {
    let mut slab = Slab::<u8>::with_capacity(2);
    assert_eq!(slab.capacity(), 2);
    assert!(!slab.is_full());
    let before = slab.room();
    let key = slab.insert(1);
    assert_eq!(slab.room(), before - 1);
    slab.remove(key);
    assert_eq!(slab.room(), before);
}

#[test]
fn retain_frees_slots_in_rising_order() {
    let mut slab = Slab::<u32>::new();
    let keys: Vec<NodeId> = (0..4).map(|i| slab.insert(i)).collect();
    slab.remove(keys[3]);
    slab.retain(|_, v| *v == 1);
    // Slot 3 was freed first, then the slots 0 and 2 in their order.
    let next: Vec<u32> = (0..3).map(|i| slab.insert(10 + i).into_raw().0).collect();
    assert_eq!(next, vec![3, 0, 2]);
    assert_eq!(slab.capacity(), 4);
    assert_eq!(slab.get(keys[1]), Some(&1));
}
