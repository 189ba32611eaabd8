use arandu_semantics::init_bits::{InitBits, LocalId};

#[test]
fn test_init_bits_tracks_locals_across_word_boundaries() {
    let mut bits = InitBits::new(130);
    bits.set(LocalId::from_usize(0));
    bits.set(LocalId::from_usize(64));
    bits.set(LocalId::from_usize(129));

    assert!(bits.get(LocalId::from_usize(0)));
    assert!(bits.get(LocalId::from_usize(64)));
    assert!(bits.get(LocalId::from_usize(129)));
    assert!(!bits.get(LocalId::from_usize(128)));
    assert!(!bits.get(LocalId::from_usize(130)));

    let mut all = InitBits::all_init(130);
    all.intersect_with(&bits);
    assert!(all.get(LocalId::from_usize(0)));
    assert!(all.get(LocalId::from_usize(64)));
    assert!(all.get(LocalId::from_usize(129)));
    assert!(!all.get(LocalId::from_usize(128)));
    assert!(!all.get(LocalId::from_usize(130)));
}

#[test]
fn new_bits_start_uninitialised() {
    let bits = InitBits::new(70);
    for i in 0..70 {
        assert!(!bits.get(LocalId::from_usize(i)));
    }
}

#[test]
fn all_init_sets_exactly_the_tracked_locals() {
    let all = InitBits::all_init(65);
    for i in 0..65 {
        assert!(all.get(LocalId::from_usize(i)));
    }
    assert!(!all.get(LocalId::from_usize(65)));
    assert!(!all.get(LocalId::from_usize(127)));
}

#[test]
fn set_leaves_other_locals_alone() {
    let mut bits = InitBits::new(10);
    bits.set(LocalId::from_usize(3));
    for i in 0..10 {
        assert_eq!(bits.get(LocalId::from_usize(i)), i == 3);
    }
}

#[test]
fn set_out_of_range_is_ignored() {
    let mut bits = InitBits::new(10);
    let before = bits.clone();
    bits.set(LocalId::from_usize(64));
    assert_eq!(bits, before);
}

#[test]
fn intersect_is_pointwise_and() {
    let mut a = InitBits::new(8);
    let mut b = InitBits::new(8);
    a.set(LocalId::from_usize(1));
    a.set(LocalId::from_usize(2));
    b.set(LocalId::from_usize(2));
    b.set(LocalId::from_usize(5));
    a.intersect_with(&b);
    for i in 0..8 {
        assert_eq!(a.get(LocalId::from_usize(i)), i == 2);
    }
}

#[test]
fn local_id_round_trips_through_usize() {
    assert_eq!(LocalId::from_usize(42).as_usize(), 42);
}
