use slabmap::{BitmapSlab, SlabMap};

// ---- flat growable pool ----------------------------------------------------

#[test]
fn flat_new_has_one_word() {
    let slab: BitmapSlab<u8> = BitmapSlab::new();
    assert_eq!(slab.capacity(), 64);
}

#[test]
fn flat_with_capacity_rounds_to_words() {
    let slab: BitmapSlab<u8> = BitmapSlab::with_capacity(100);
    assert_eq!(slab.capacity(), 128);
    let slab: BitmapSlab<u8> = BitmapSlab::with_capacity(64);
    assert_eq!(slab.capacity(), 64);
}

#[test]
fn flat_insert_get_round_trip() {
    let mut slab: BitmapSlab<String> = BitmapSlab::new();
    let idx = slab.insert(String::from("v"));
    assert_eq!(slab.get(idx).unwrap(), "v");
    assert_eq!(*slab.get_unchecked(idx), "v");
}

#[test]
fn flat_insert_grows_when_full() {
    let mut slab: BitmapSlab<usize> = BitmapSlab::new();
    let mut seen = vec![false; 64];
    for v in 0..64 {
        let idx = slab.insert(v);
        assert!(idx < 64);
        assert!(!seen[idx]);
        seen[idx] = true;
    }
    assert_eq!(slab.capacity(), 64);
    let idx = slab.insert(64);
    assert_eq!(idx, 64);
    assert_eq!(slab.capacity(), 128);
    assert_eq!(*slab.get(64).unwrap(), 64);
}

#[test]
fn flat_remove_frees_and_reports() {
    let mut slab: BitmapSlab<u64> = BitmapSlab::new();
    let idx = slab.insert(123);
    assert_eq!(slab.remove(idx), Some(123));
    assert!(slab.get(idx).is_none());
    assert_eq!(slab.remove(idx), None);
}

#[test]
fn flat_remove_unchecked_returns_value() {
    let mut slab: BitmapSlab<u64> = BitmapSlab::new();
    let idx = slab.insert(77);
    assert_eq!(slab.remove_unchecked(idx), 77);
    assert!(slab.get(idx).is_none());
}

#[test]
fn flat_freed_slot_is_reused() {
    let mut slab: BitmapSlab<u64> = BitmapSlab::new();
    let a = slab.insert(1);
    let _b = slab.insert(2);
    slab.remove(a).unwrap();
    let c = slab.insert(3);
    assert_eq!(c, a);
}

// ---- keyed map over the flat pool ------------------------------------------

#[test]
fn flat_map_insert_get_remove() {
    let mut m: SlabMap<String> = SlabMap::new();
    m.insert(1, String::from("one"));
    m.insert(2, String::from("two"));
    assert_eq!(m.get(&1).unwrap(), "one");
    assert_eq!(m.get(&2).unwrap(), "two");
    let (idx, removed) = m.remove(&1).unwrap();
    assert_eq!(removed, "one");
    assert!(idx < 64);
    assert!(m.get(&1).is_none());
    assert!(m.remove(&1).is_none());
}

#[test]
fn flat_map_duplicate_key_is_stable() {
    let mut m: SlabMap<u64> = SlabMap::with_capacity(16);
    let i1 = m.insert(77, 1);
    let i2 = m.insert(77, 2);
    assert_eq!(i1, i2);
    assert_eq!(*m.get(&77).unwrap(), 2);
}

#[test]
fn flat_map_unchecked_paths() {
    let mut m: SlabMap<u64> = SlabMap::new();
    m.insert(5, 500);
    assert_eq!(*m.get_unchecked(&5), 500);
    assert_eq!(m.remove_unchecked(&5), 500);
    assert!(m.get(&5).is_none());
}

#[test]
fn flat_map_grows_past_initial_capacity() {
    let mut m: SlabMap<u64> = SlabMap::new();
    for k in 0..200u64 {
        m.insert(k, k);
    }
    for k in 0..200u64 {
        assert_eq!(*m.get(&k).unwrap(), k);
    }
}
