use arandu_semantics::stable_id::{GenerationalId, SlotMap};

#[test]
fn test_slotmap_insert_get_remove() {
    let mut map = SlotMap::<String>::new();
    let k1 = map.insert("hello".to_string());
    let k2 = map.insert("world".to_string());

    assert_eq!(map.len(), 2);
    assert_eq!(map.get(k1), Some(&"hello".to_string()));
    assert_eq!(map.get(k2), Some(&"world".to_string()));

    // Remove k1
    let val = map.remove(k1);
    assert_eq!(val, Some("hello".to_string()));
    assert_eq!(map.len(), 1);

    // Accessing k1 now should return None
    assert_eq!(map.get(k1), None);

    // Re-inserting should re-use slot but change generation
    let k3 = map.insert("rust".to_string());
    assert_eq!(k3.index(), k1.index());
    assert_ne!(k3.generation(), k1.generation());
    assert_eq!(map.get(k3), Some(&"rust".to_string()));
    assert_eq!(map.get(k1), None); // Old key remains invalid
}

#[test]
fn removing_twice_gives_nothing_the_second_time() {
    let mut map = SlotMap::<u32>::new();
    let k = map.insert(7);
    assert_eq!(map.remove(k), Some(7));
    assert_eq!(map.remove(k), None);
    assert!(map.is_empty());
    assert!(!map.contains_key(k));
}

#[test]
fn get_mut_changes_the_stored_value() {
    let mut map = SlotMap::<u32>::new();
    let k = map.insert(1);
    if let Some(v) = map.get_mut(k) {
        *v = 5;
    }
    assert_eq!(map.get(k), Some(&5));
}

#[test]
fn clear_drops_every_key() {
    let mut map = SlotMap::<u32>::new();
    let a = map.insert(1);
    let b = map.insert(2);
    map.clear();
    assert_eq!(map.len(), 0);
    assert!(map.is_empty());
    assert_eq!(map.get(a), None);
    assert_eq!(map.get(b), None);
}

#[test]
fn unknown_index_is_not_found() {
    let map = SlotMap::<u32>::new();
    let k = GenerationalId::<u32>::new(3, 0);
    assert_eq!(map.get(k), None);
    assert!(!map.contains_key(k));
}

#[test]
fn generational_id_keeps_its_parts() {
    let k = GenerationalId::<u8>::new(4, 9);
    assert_eq!(k.index(), 4);
    assert_eq!(k.generation(), 9);
    assert_eq!(k, GenerationalId::<u8>::new(4, 9));
    assert_ne!(k, GenerationalId::<u8>::new(4, 10));
}

#[test]
fn keys_from_before_clear_stay_dead() {
    let mut map = SlotMap::<u32>::new();
    let a = map.insert(1);
    let b = map.insert(2);
    map.clear();
    let c = map.insert(3);
    let d = map.insert(4);
    let e = map.insert(5);
    assert_eq!(map.get(a), None);
    assert_eq!(map.get(b), None);
    assert_eq!(c.index(), 0);
    assert_eq!(d.index(), 1);
    assert_eq!(e.index(), 2);
    assert_eq!(map.get(c), Some(&3));
    assert_eq!(map.len(), 3);
}

#[test]
fn freed_slots_are_reused_latest_first() {
    let mut map = SlotMap::<u32>::new();
    let a = map.insert(1);
    let b = map.insert(2);
    map.remove(a);
    map.remove(b);
    let c = map.insert(3);
    assert_eq!(c.index(), b.index());
    let d = map.insert(4);
    assert_eq!(d.index(), a.index());
}
