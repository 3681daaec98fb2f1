use hashing::table::Probe;
use hashing::Elem;
use hashing::OpenAddressing;

#[test]
fn new_table_is_empty_with_seven_slots() {
    let t = OpenAddressing::new();
    assert_eq!(t.len(), 0);
    assert_eq!(t.capacity(), 7);
    assert_eq!(t.free(), 7);
    assert_eq!(t.check(), 7);
    assert_eq!(t.lookup(0), None);
    assert_eq!(t.lookup(1000), None);
}

#[test]
fn scenario_insert_overwrite_remove_grow() {
    let mut t = OpenAddressing::new();
    t.insert(1000, 5);
    assert_eq!(t.len(), 1);
    assert_eq!(t.free(), 6);
    assert_eq!(t.lookup(1000), Some(5));

    t.insert(1000, 9);
    assert_eq!(t.len(), 1);
    assert_eq!(t.lookup(1000), Some(9));

    assert_eq!(t.remove(&1000), Some(9));
    assert_eq!(t.len(), 0);
    assert_eq!(t.free(), 7);
    assert_eq!(t.lookup(1000), None);

    let keys: [u64; 6] = [11, 22, 33, 44, 55, 66];
    for (i, k) in keys.iter().enumerate() {
        if i < 5 {
            assert_eq!(t.capacity(), 7);
        }
        t.insert(*k, *k + 1);
    }
    assert_eq!(t.capacity(), 14);
    assert_eq!(t.len(), 6);
    assert_eq!(t.free(), 8);
    for k in keys.iter() {
        assert_eq!(t.lookup(*k), Some(*k + 1));
    }
    assert_eq!(t.check(), 8);
}

#[test]
fn counters_add_up_after_every_change() {
    let mut t = OpenAddressing::new();
    for k in 0..200u64 {
        t.insert(k * 3, k);
        assert_eq!(t.len() + t.free(), t.capacity());
        assert_eq!(t.check(), t.free());
        if k % 3 == 0 {
            assert_eq!(t.remove(&(k * 3)), Some(k));
            assert_eq!(t.len() + t.free(), t.capacity());
            assert_eq!(t.check(), t.free());
        }
    }
}

#[test]
fn round_trip_survives_other_changes() {
    let mut t = OpenAddressing::new();
    t.insert(42, 4242);
    for k in 100..160u64 {
        t.insert(k, k);
    }
    for k in 100..130u64 {
        assert_eq!(t.remove(&k), Some(k));
    }
    assert_eq!(t.lookup(42), Some(4242));
    assert_eq!(t.len(), 31);
}

#[test]
fn overwrite_keeps_count_and_reports_latest() {
    let mut t = OpenAddressing::new();
    t.insert(5, 1);
    let n = t.len();
    t.insert(5, 2);
    assert_eq!(t.len(), n);
    assert_eq!(t.lookup(5), Some(2));
}

#[test]
fn overwrite_past_a_tombstone_leaves_no_stale_copy() {
    let mut t = OpenAddressing::new();
    t.insert(7, 1);
    t.insert(14, 2);
    assert_eq!(t.remove(&7), Some(1));
    t.insert(14, 3);
    assert_eq!(t.len(), 1);
    assert_eq!(t.lookup(14), Some(3));
    assert_eq!(t.remove(&14), Some(3));
    assert_eq!(t.lookup(14), None);
    assert_eq!(t.len(), 0);
    assert_eq!(t.free(), 7);
}

#[test]
fn removed_key_is_absent() {
    let mut t = OpenAddressing::new();
    t.insert(9, 90);
    t.insert(16, 160);
    assert_eq!(t.remove(&9), Some(90));
    assert_eq!(t.lookup(9), None);
    assert_eq!(t.lookup(16), Some(160));
}

#[test]
fn second_removal_reports_absent() {
    let mut t = OpenAddressing::new();
    t.insert(9, 90);
    assert_eq!(t.remove(&9), Some(90));
    assert_eq!(t.remove(&9), None);
    assert_eq!(t.len(), 0);
    assert_eq!(t.free(), 7);
}

#[test]
fn removal_from_an_empty_table_reports_absent() {
    let mut t = OpenAddressing::new();
    assert_eq!(t.remove(&1), None);
    assert_eq!(t.len(), 0);
}

#[test]
fn key_zero_and_value_zero_are_ordinary() {
    let mut t = OpenAddressing::new();
    assert_eq!(t.lookup(0), None);
    t.insert(0, 0);
    t.insert(7, 0);
    assert_eq!(t.len(), 2);
    assert_eq!(t.lookup(0), Some(0));
    assert_eq!(t.lookup(7), Some(0));
    assert_eq!(t.remove(&0), Some(0));
    assert_eq!(t.lookup(0), None);
    assert_eq!(t.lookup(7), Some(0));
    assert_eq!(t.remove(&0), None);
}

#[test]
fn growth_keeps_every_pair() {
    let mut t = OpenAddressing::new();
    for k in 0..1000u64 {
        t.insert(k * 7919, k + 1);
    }
    assert_eq!(t.len(), 1000);
    assert!(t.capacity() > 1000);
    for k in 0..1000u64 {
        assert_eq!(t.lookup(k * 7919), Some(k + 1));
    }
    assert_eq!(t.check(), t.capacity() - 1000);
}

#[test]
fn capacity_doubles_when_fewer_than_three_slots_are_free() {
    let mut t = OpenAddressing::new();
    let mut seen: Vec<usize> = Vec::new();
    for k in 0..30u64 {
        t.insert(k, k);
        seen.push(t.capacity());
    }
    // 5 entries fit in 7 slots, 12 in 14, 26 in 28.
    assert_eq!(&seen[0..5], &[7, 7, 7, 7, 7]);
    assert_eq!(seen[5], 14);
    assert_eq!(seen[11], 14);
    assert_eq!(seen[12], 28);
    assert_eq!(seen[25], 28);
    assert_eq!(seen[26], 56);
}

#[test]
fn lookup_of_a_missing_key_ends_in_a_table_full_of_tombstones() {
    let mut t = OpenAddressing::new();
    for k in 0..5u64 {
        t.insert(k, k);
    }
    for k in 0..5u64 {
        assert_eq!(t.remove(&k), Some(k));
    }
    assert_eq!(t.capacity(), 7);
    assert_eq!(t.lookup(5), None);
    assert_eq!(t.lookup(12), None);
    assert_eq!(t.remove(&5), None);
}

#[test]
fn growth_reclaims_tombstones() {
    let mut t = OpenAddressing::new();
    for round in 0..50u64 {
        t.insert(round, round);
        assert_eq!(t.remove(&round), Some(round));
    }
    assert_eq!(t.len(), 0);
    assert_eq!(t.free(), t.capacity());
    assert_eq!(t.capacity(), 7);
    for round in 0..50u64 {
        assert_eq!(t.lookup(round), None);
    }
}

#[test]
fn rehash_doubles_and_keeps_the_entries() {
    let mut t = OpenAddressing::new();
    t.insert(1, 10);
    t.insert(8, 80);
    t.insert(15, 150);
    assert_eq!(t.remove(&8), Some(80));
    t.rehash();
    assert_eq!(t.capacity(), 14);
    assert_eq!(t.len(), 2);
    assert_eq!(t.free(), 12);
    assert_eq!(t.lookup(1), Some(10));
    assert_eq!(t.lookup(8), None);
    assert_eq!(t.lookup(15), Some(150));
    assert_eq!(t.check(), 12);
}

#[test]
fn probe_starts_at_the_key_modulo_the_capacity() {
    let mut t = OpenAddressing::new();
    let p: Probe = t.probe(10);
    assert!(!p.found);
    assert_eq!(p.index, 3);
    t.insert(10, 1);
    let p = t.probe(10);
    assert!(p.found);
    assert_eq!(p.index, 3);
    let p = t.probe(17);
    assert!(!p.found);
    assert_eq!(p.index, 4);
}

#[test]
fn probe_wraps_round_the_end_of_the_array() {
    let mut t = OpenAddressing::new();
    t.insert(6, 1);
    let p = t.probe(13);
    assert!(!p.found);
    assert_eq!(p.index, 0);
    t.insert(13, 2);
    let p = t.probe(13);
    assert!(p.found);
    assert_eq!(p.index, 0);
    assert_eq!(t.lookup(13), Some(2));
}

#[test]
fn probe_offers_the_first_tombstone_on_the_path() {
    let mut t = OpenAddressing::new();
    t.insert(0, 1);
    t.insert(7, 2);
    t.insert(14, 3);
    assert_eq!(t.remove(&7), Some(2));
    let p = t.probe(21);
    assert!(!p.found);
    assert_eq!(p.index, 1);
    let p = t.probe(14);
    assert!(p.found);
    assert_eq!(p.index, 2);
}

#[test]
fn large_keys_start_at_their_remainder() {
    let mut t = OpenAddressing::new();
    t.insert(u64::MAX, 1);
    // 2^64 - 1 = 7 * 2635249153387078802 + 1
    let p = t.probe(u64::MAX);
    assert!(p.found);
    assert_eq!(p.index, 1);
    assert_eq!(t.lookup(u64::MAX), Some(1));
}

#[test]
fn elem_constructors() {
    let e = Elem::new(&3, &4);
    assert_eq!(e.key, 3);
    assert_eq!(e.value, 4);
    assert_eq!(e.key(), 3);
    assert_eq!(e.value(), 4);
    assert!(e.is_occupied());
    assert!(e.is_touched());

    let v = Elem::vacant();
    assert!(!v.is_occupied());
    assert!(!v.is_touched());

    let r = e.retired();
    assert_eq!(r.key, 3);
    assert_eq!(r.value, 4);
    assert!(!r.is_occupied());
    assert!(r.is_touched());

    let d = Elem::default();
    assert_eq!(d.key, 0);
    assert_eq!(d.value, 0);
    assert!(d.is_occupied());
}
