use compact_id_map::bimap::BiMapSnapshot;
use compact_id_map::bimap::CompactIdBiMap;
use compact_id_map::unimap::CompactIdMap;
use compact_id_map::unimap::UniMapSnapshot;
use compact_id_map::IdAllocError;

#[test]
fn test_ids() {
    let mut ids = CompactIdBiMap::new();
    assert_eq!(0, ids.insert(String::from("hello")).unwrap());
    assert_eq!(1, ids.insert(String::from("how")).unwrap());
    assert_eq!(Some(0), ids.get("hello"));
    assert_eq!(Some(&String::from("hello")), ids.get_key(0));
    assert_eq!(Some(0), ids.remove("hello"));
    assert_eq!(None, ids.get("hello"));
    assert_eq!(None, ids.remove("hello"));
    assert_eq!(0, ids.insert(String::from("are")).unwrap());
    assert_eq!(2, ids.insert(String::from("you")).unwrap());
    assert_eq!(Some(0), ids.get("are"));
    assert_eq!(Some(&String::from("are")), ids.get_key(0));
    assert_eq!(Some(2), ids.get("you"));
    assert_eq!(Some(&String::from("you")), ids.get_key(2));
}

#[test]
fn bimap_insert_ids_are_distinct() {
    let mut ids = CompactIdBiMap::new();
    let a = ids.insert(String::from("a")).unwrap();
    let b = ids.insert(String::from("b")).unwrap();
    let c = ids.insert(String::from("c")).unwrap();
    let d = ids.insert(String::from("d")).unwrap();
    assert_ne!(a, b);
    assert_ne!(a, c);
    assert_ne!(a, d);
    assert_ne!(b, c);
    assert_ne!(b, d);
    assert_ne!(c, d);
}

#[test]
fn bimap_insert_round_trip() {
    let mut ids = CompactIdBiMap::new();
    let id = ids.insert(String::from("hello")).unwrap();
    assert_eq!(Some(&String::from("hello")), ids.get_key(id));
    assert_eq!(Some(id), ids.get("hello"));
}

#[test]
fn bimap_get_or_insert_is_idempotent() {
    let mut ids = CompactIdBiMap::new();
    ids.insert(String::from("zero")).unwrap();
    let first = ids.get_or_insert(String::from("k")).unwrap();
    let second = ids.get_or_insert(String::from("k")).unwrap();
    assert_eq!(first, second);
    // The only ids handed out across both calls are the one for "zero" and
    // one for "k": the very next allocation yields 2.
    assert_eq!(2, ids.insert(String::from("fresh")).unwrap());
}

#[test]
fn bimap_duplicate_key_is_an_error() {
    let mut ids = CompactIdBiMap::new();
    assert_eq!(0, ids.insert(String::from("a")).unwrap());
    assert_eq!(Err(IdAllocError::DuplicateKey), ids.insert(String::from("a")));
    // The failed insertion changed nothing.
    assert_eq!(Some(0), ids.get("a"));
    assert_eq!(1, ids.insert(String::from("b")).unwrap());
}

#[test]
fn bimap_immediate_lifo_reuse() {
    let mut ids = CompactIdBiMap::new();
    ids.insert(String::from("a")).unwrap();
    let b = ids.insert(String::from("b")).unwrap();
    ids.insert(String::from("c")).unwrap();
    assert_eq!(Some(b), ids.remove("b"));
    assert_eq!(b, ids.insert(String::from("d")).unwrap());
}

#[test]
fn bimap_remove_clears_both_directions() {
    let mut ids = CompactIdBiMap::new();
    let id = ids.insert(String::from("gone")).unwrap();
    assert_eq!(Some(id), ids.remove("gone"));
    assert_eq!(None, ids.get("gone"));
    assert_eq!(None, ids.get_key(id));
}

#[test]
fn bimap_remove_id_returns_the_key() {
    let mut ids = CompactIdBiMap::new();
    let id = ids.insert(String::from("x")).unwrap();
    assert_eq!(Some(String::from("x")), ids.remove_id(id));
    assert_eq!(None, ids.remove_id(id));
    assert_eq!(None, ids.get("x"));
    // The freed id is reused by the very next insertion.
    assert_eq!(id, ids.insert(String::from("y")).unwrap());
}

#[test]
fn unimap_insert_get_round_trip() {
    let mut m: CompactIdMap<u32, String> = CompactIdMap::new();
    let a = m.insert(String::from("alpha")).unwrap();
    let b = m.insert(String::from("beta")).unwrap();
    assert_eq!(0, a);
    assert_eq!(1, b);
    assert_eq!(Some(&String::from("alpha")), m.get(a));
    assert_eq!(Some(&String::from("beta")), m.get(b));
    assert_eq!(None, m.get(7));
}

#[test]
fn unimap_duplicate_values_are_permitted() {
    let mut m: CompactIdMap<u64, String> = CompactIdMap::new();
    let a = m.insert(String::from("same")).unwrap();
    let b = m.insert(String::from("same")).unwrap();
    assert_ne!(a, b);
    assert_eq!(Some(&String::from("same")), m.get(a));
    assert_eq!(Some(&String::from("same")), m.get(b));
}

#[test]
fn unimap_get_mut_updates_in_place() {
    let mut m: CompactIdMap<usize, i32> = CompactIdMap::new();
    let id = m.insert(10).unwrap();
    match m.get_mut(id) {
        Some(v) => {
            *v += 5;
        },
        None => panic!("id should be live"),
    }
    assert_eq!(Some(&15), m.get(id));
    assert!(m.get_mut(99).is_none());
}

#[test]
fn unimap_remove_id_recycles_lifo() {
    let mut m: CompactIdMap<u32, &str> = CompactIdMap::new();
    let a = m.insert("a").unwrap();
    let b = m.insert("b").unwrap();
    let c = m.insert("c").unwrap();
    assert_eq!(Some("a"), m.remove_id(a));
    assert_eq!(Some("c"), m.remove_id(c));
    assert_eq!(None, m.remove_id(c));
    // Most recently freed first: c's id comes back before a's.
    assert_eq!(c, m.insert("d").unwrap());
    assert_eq!(a, m.insert("e").unwrap());
    assert_eq!(Some(&"b"), m.get(b));
}

#[test]
fn unimap_exhaustion_is_an_explicit_error() {
    let mut m: CompactIdMap<u8, u32> = CompactIdMap::new();
    for i in 0..255u32 {
        assert_eq!(Ok(i as u8), m.insert(i));
    }
    // The next fresh id (255) has no successor, so allocation fails
    // recoverably instead of aborting.
    assert_eq!(Err(IdAllocError::Exhausted), m.insert(255));
    // The map itself is untouched and still serves lookups and removals.
    assert_eq!(Some(&7), m.get(7));
    assert_eq!(Some(7), m.remove_id(7));
    // A freed id makes allocation possible again.
    assert_eq!(Ok(7), m.insert(1000));
}

#[test]
fn bimap_snapshot_restore_round_trip() {
    let mut ids = CompactIdBiMap::new();
    ids.insert(String::from("hello")).unwrap();
    ids.insert(String::from("how")).unwrap();
    ids.insert(String::from("are")).unwrap();
    ids.remove("how").unwrap();
    let snap = ids.snapshot();
    let mut back = CompactIdBiMap::restore(&snap).unwrap();
    assert_eq!(ids.get("hello"), back.get("hello"));
    assert_eq!(ids.get("are"), back.get("are"));
    assert_eq!(None, back.get("how"));
    // The restored map hands out the same ids the original would have: the
    // freed id first, then the next fresh one.
    assert_eq!(1, back.insert(String::from("you")).unwrap());
    assert_eq!(3, back.insert(String::from("today")).unwrap());
}

#[test]
fn bimap_restore_rejects_inconsistent_snapshots() {
    // An id at or above the next-fresh counter cannot have been allocated.
    let bad = BiMapSnapshot {
        pairs: vec![(String::from("a"), 5)],
        recycle_bin: vec![],
        next_new_id: 1,
    };
    assert!(CompactIdBiMap::restore(&bad).is_none());
    // A freed id may not still be associated.
    let bad2 = BiMapSnapshot {
        pairs: vec![(String::from("a"), 0)],
        recycle_bin: vec![0],
        next_new_id: 1,
    };
    assert!(CompactIdBiMap::restore(&bad2).is_none());
    // A duplicate key is rejected.
    let bad3 = BiMapSnapshot {
        pairs: vec![(String::from("a"), 0), (String::from("a"), 1)],
        recycle_bin: vec![],
        next_new_id: 2,
    };
    assert!(CompactIdBiMap::restore(&bad3).is_none());
    // A consistent snapshot is accepted.
    let good = BiMapSnapshot {
        pairs: vec![(String::from("a"), 0)],
        recycle_bin: vec![1],
        next_new_id: 2,
    };
    assert!(CompactIdBiMap::restore(&good).is_some());
}

#[test]
fn unimap_snapshot_restore_round_trip() {
    let mut m: CompactIdMap<u32, String> = CompactIdMap::new();
    let a = m.insert(String::from("alpha")).unwrap();
    let b = m.insert(String::from("beta")).unwrap();
    m.insert(String::from("gamma")).unwrap();
    m.remove_id(b).unwrap();
    let snap = m.into_snapshot();
    let mut back = CompactIdMap::restore(snap).unwrap();
    assert_eq!(Some(&String::from("alpha")), back.get(a));
    assert_eq!(None, back.get(b));
    // The restored map hands out the same ids the original would have: the
    // freed id first, then the next fresh one.
    assert_eq!(b, back.insert(String::from("delta")).unwrap());
    assert_eq!(3, back.insert(String::from("epsilon")).unwrap());
}

#[test]
fn unimap_restore_rejects_inconsistent_snapshots() {
    // An id at or above the next-fresh counter cannot have been allocated.
    let bad: UniMapSnapshot<u32, &str> = UniMapSnapshot {
        entries: vec![(4, "x")],
        recycle_bin: vec![],
        next_new_id: 1,
    };
    assert!(CompactIdMap::restore(bad).is_none());
    // Two entries may not share an id.
    let bad2: UniMapSnapshot<u32, &str> = UniMapSnapshot {
        entries: vec![(0, "x"), (0, "y")],
        recycle_bin: vec![],
        next_new_id: 2,
    };
    assert!(CompactIdMap::restore(bad2).is_none());
    // A freed id may not still hold a value.
    let bad3: UniMapSnapshot<u32, &str> = UniMapSnapshot {
        entries: vec![(0, "x")],
        recycle_bin: vec![0],
        next_new_id: 1,
    };
    assert!(CompactIdMap::restore(bad3).is_none());
    // A consistent snapshot is accepted.
    let good: UniMapSnapshot<u32, &str> = UniMapSnapshot {
        entries: vec![(0, "x")],
        recycle_bin: vec![1],
        next_new_id: 2,
    };
    assert!(CompactIdMap::restore(good).is_some());
}

#[test]
fn bimap_starts_empty() {
    let ids = CompactIdBiMap::new();
    assert_eq!(None, ids.get(""));
    assert_eq!(None, ids.get_key(0));
}
