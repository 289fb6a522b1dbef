use slabmap::bits::WordBitmap;
use slabmap::map::SlabMap;
use slabmap::slab::{AllocError, BitmapSlab};

// ---- word bitmap -----------------------------------------------------------

#[test]
fn word_bitmap_first_zero_and_sets() {
    let mut w = WordBitmap::default();
    assert!(!w.is_max());
    assert_eq!(w.first_zero_lsb(), 0);
    w.set_bit_one(0);
    w.set_bit_one(1);
    w.set_bit_one(2);
    assert_eq!(w.first_zero_lsb(), 3);
    w.set_bit_zero(1);
    assert_eq!(w.first_zero_lsb(), 1);
}

#[test]
fn word_bitmap_becomes_max() {
    let mut w = WordBitmap::default();
    for i in 0..64 {
        assert!(!w.is_max());
        let z = w.first_zero_lsb();
        assert_eq!(z, i);
        w.set_bit_one(z);
    }
    assert!(w.is_max());
}

// ---- two-level slot allocator ----------------------------------------------

#[test]
fn slab_capacity_rounds_up() {
    let slab: BitmapSlab<u32> = BitmapSlab::with_capacity(16);
    assert_eq!(slab.capacity(), 4096);
    let slab: BitmapSlab<u32> = BitmapSlab::with_capacity(4096);
    assert_eq!(slab.capacity(), 4096);
    let slab: BitmapSlab<u32> = BitmapSlab::with_capacity(4097);
    assert_eq!(slab.capacity(), 8192);
}

#[test]
fn slab_boundary_capacity_accepted() {
    let slab: BitmapSlab<u32> = BitmapSlab::with_capacity(64 * 64 * 254);
    assert_eq!(slab.capacity(), 64 * 64 * 254);
}

#[test]
fn slab_insert_get_round_trip() {
    let mut slab: BitmapSlab<String> = BitmapSlab::with_capacity(100);
    let idx = slab.insert(String::from("hello")).unwrap();
    assert_eq!(slab.get(idx), "hello");
}

#[test]
fn slab_get_mut_writes_through() {
    let mut slab: BitmapSlab<u64> = BitmapSlab::with_capacity(10);
    let idx = slab.insert(1).unwrap();
    *slab.get_mut(idx) = 42;
    assert_eq!(*slab.get(idx), 42);
}

#[test]
fn slab_set_unsafe_overwrites_in_place() {
    let mut slab: BitmapSlab<u64> = BitmapSlab::with_capacity(10);
    let idx = slab.insert(5).unwrap();
    slab.set_unsafe(99, idx);
    assert_eq!(*slab.get(idx), 99);
}

#[test]
fn slab_exhaustion_distinct_indices_then_out_of_memory() {
    let mut slab: BitmapSlab<usize> = BitmapSlab::with_capacity(16);
    let cap = slab.capacity();
    let mut seen = vec![false; cap];
    for v in 0..cap {
        let idx = slab.insert(v).unwrap();
        assert!(idx < cap);
        assert!(!seen[idx], "index {} handed out twice", idx);
        seen[idx] = true;
    }
    let overflow = slab.insert(cap);
    assert!(matches!(overflow, Err(AllocError::OutOfMemory)));
}

#[test]
fn slab_full_reclamation_permutes_indices() {
    let mut slab: BitmapSlab<usize> = BitmapSlab::with_capacity(200);
    let cap = slab.capacity();
    let mut first: Vec<usize> = (0..cap).map(|v| slab.insert(v).unwrap()).collect();
    for &idx in &first {
        slab.remove(idx).unwrap();
    }
    let mut second: Vec<usize> = (0..cap).map(|v| slab.insert(v).unwrap()).collect();
    first.sort();
    second.sort();
    assert_eq!(first, second);
}

#[test]
fn slab_remove_returns_stored_value() {
    let mut slab: BitmapSlab<u64> = BitmapSlab::with_capacity(50);
    let a = slab.insert(11).unwrap();
    let b = slab.insert(22).unwrap();
    assert_eq!(slab.remove(a), Some(11));
    assert_eq!(slab.remove(b), Some(22));
}

#[test]
fn slab_fill_scenario_reuses_most_recently_freed_slot() {
    let mut slab: BitmapSlab<usize> = BitmapSlab::with_capacity(16);
    let cap = slab.capacity();
    assert_eq!(cap, 4096);
    let indices: Vec<usize> = (0..cap).map(|v| slab.insert(v).unwrap()).collect();
    let mut sorted = indices.clone();
    sorted.sort();
    assert_eq!(sorted, (0..cap).collect::<Vec<usize>>());
    assert!(matches!(slab.insert(cap), Err(AllocError::OutOfMemory)));
    let freed = indices[0];
    assert_eq!(slab.remove(freed), Some(0));
    let reused = slab.insert(7777).unwrap();
    assert_eq!(reused, freed);
    assert_eq!(*slab.get(reused), 7777);
}

// ---- keyed slab map over the two-level allocator ----------------------------

#[test]
fn map_insert_get_round_trip() {
    let mut m: SlabMap<String> = SlabMap::with_capacity(32);
    m.insert(42, String::from("answer"));
    assert_eq!(m.get(&42).unwrap(), "answer");
    assert!(m.get(&43).is_none());
}

#[test]
fn map_duplicate_key_keeps_index_and_takes_new_value() {
    let mut m: SlabMap<u64> = SlabMap::with_capacity(32);
    let i1 = m.insert(7, 100);
    let i2 = m.insert(7, 200);
    assert_eq!(i1, i2);
    assert_eq!(*m.get(&7).unwrap(), 200);
}

#[test]
fn map_remove_then_reinsert() {
    let mut m: SlabMap<u64> = SlabMap::with_capacity(32);
    let i = m.insert(5, 50);
    let (ri, rv) = m.remove(&5).unwrap();
    assert_eq!(ri, i);
    assert_eq!(rv, 50);
    assert!(m.get(&5).is_none());
    assert!(m.remove(&5).is_none());
    let i3 = m.insert(5, 51);
    assert!(i3 < 4096);
    assert_eq!(*m.get(&5).unwrap(), 51);
}

#[test]
fn map_get_unchecked_reads_present_key() {
    let mut m: SlabMap<u64> = SlabMap::with_capacity(32);
    m.insert(9, 900);
    assert_eq!(*m.get_unchecked(&9), 900);
}

#[test]
fn map_iter_lists_every_entry_once() {
    let mut m: SlabMap<u64> = SlabMap::with_capacity(32);
    for k in 0..10u64 {
        m.insert(k, k * 3);
    }
    m.remove(&4).unwrap();
    let entries = m.iter();
    assert_eq!(entries.len(), 9);
    for (k, v) in &entries {
        assert_eq!(**v, *k * 3);
    }
    let mut keys: Vec<u64> = entries.iter().map(|p| p.0).collect();
    keys.sort();
    assert_eq!(keys, vec![0, 1, 2, 3, 5, 6, 7, 8, 9]);
}

#[test]
fn map_fragmentation_scenario() {
    let mut m: SlabMap<u64> = SlabMap::with_capacity(100);
    let rounded_capacity = 4096;
    // (key, index) of every currently live entry
    let mut live: Vec<(u64, usize)> = Vec::new();
    let check_live = |live: &Vec<(u64, usize)>| {
        for a in 0..live.len() {
            assert!(live[a].1 < rounded_capacity);
            for b in a + 1..live.len() {
                assert_ne!(live[a].1, live[b].1, "two live entries share an index");
            }
        }
    };
    for k in 0..12u64 {
        let idx = m.insert(k, k * 10);
        live.retain(|p| p.0 != k);
        live.push((k, idx));
        check_live(&live);
    }
    for k in [0u64, 10, 20, 30, 40] {
        let removed = m.remove(&k);
        assert_eq!(removed.is_some(), k == 0 || k == 10);
        live.retain(|p| p.0 != k);
        check_live(&live);
    }
    for n in 0..22u64 {
        let k = 2 * n;
        let idx = m.insert(k, k + 1000);
        live.retain(|p| p.0 != k);
        live.push((k, idx));
        check_live(&live);
    }
    for &(k, _) in &live {
        assert_eq!(*m.get(&k).unwrap(), if k < 12 && k % 2 == 1 { k * 10 } else { k + 1000 });
    }
}
