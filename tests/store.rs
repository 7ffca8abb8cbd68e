use quadtree_rs::{ObjStore, Payload, StoreError};

fn payload(key: usize, name: &'static str) -> Option<Payload<&'static str>> {
    Some(Payload { key, obj: name })
}

#[test]
fn alloc_reuses_most_recently_freed_id() {
    let mut s: ObjStore<(i32, i32), &'static str> = ObjStore::new();
    for i in 0..4 {
        assert_eq!(s.insert((i, i), None), i as u64);
    }
    assert!(s.pop_id(1).is_some());
    assert!(s.pop_id(2).is_some());
    assert_eq!(s.len(), 2);
    assert_eq!(s.alloc_id(), 2);
    assert_eq!(s.alloc_id(), 1);
    assert_eq!(s.alloc_id(), 4);
    assert!(s.pop_id(2).is_none());
    assert!(s.pop_id(99).is_none());
}

#[test]
fn identity_bucket_lookup_and_pop_all() {
    let mut s: ObjStore<(i32, i32), &'static str> = ObjStore::new();
    s.insert((0, 0), payload(7, "other"));
    s.insert_at(5, (1, 1), payload(42, "a"), true).unwrap();
    s.insert_at(2, (2, 2), payload(42, "a"), true).unwrap();
    s.insert_at(3, (3, 3), payload(42, "a"), true).unwrap();
    assert!(s.contains_obj(42));
    assert_eq!(s.min_id_for_obj(42), Some(2));
    assert_eq!(s.ids_for_obj_sorted(42), vec![2, 3, 5]);
    let removed = s.pop_by_object_all(42);
    assert_eq!(removed.iter().map(|(id, _)| *id).collect::<Vec<u64>>(), vec![2, 3, 5]);
    assert_eq!(removed[0].1.geom, (2, 2));
    assert!(!s.contains_obj(42));
    assert!(s.contains_obj(7));
    assert_eq!(s.len(), 1);
    assert_eq!(s.min_id_for_obj(42), None);
    assert!(s.ids_for_obj_sorted(42).is_empty());
    assert_eq!(s.alloc_id(), 5);
}

#[test]
fn pop_by_object_min_takes_smallest_id() {
    let mut s: ObjStore<u8, &'static str> = ObjStore::with_capacity(8);
    s.insert(1, payload(3, "x"));
    s.insert(2, payload(3, "x"));
    let (id, entry) = s.pop_by_object_min(3).unwrap();
    assert_eq!(id, 0);
    assert_eq!(entry.geom, 1);
    assert_eq!(s.min_id_for_obj(3), Some(1));
    assert!(s.pop_by_object_min(99).is_none());
}

#[test]
fn insert_at_rules() {
    let mut s: ObjStore<u8, &'static str> = ObjStore::new();
    assert_eq!(s.insert_at(1, 0, None, false), Err(StoreError::OutOfOrderId));
    assert_eq!(s.dense_len(), 0);
    assert_eq!(s.insert_at(0, 0, None, false), Ok(()));
    assert_eq!(s.insert_at(3, 3, payload(9, "p"), true), Ok(()));
    assert_eq!(s.dense_len(), 4);
    assert_eq!(s.len(), 2);
    assert!(!s.contains_id(1));
    assert!(s.contains_id(3));
    assert_eq!(s.insert_at(3, 4, payload(8, "q"), false), Ok(()));
    assert_eq!(s.len(), 2);
    assert!(!s.contains_obj(9));
    assert_eq!(s.get(3).unwrap().geom, 4);
    assert_eq!(s.get_obj(3).unwrap().key, 8);
    assert!(s.get(1).is_none());
    assert!(s.get_obj(0).is_none());
    s.clear();
    assert!(s.is_empty());
    assert_eq!(s.dense_len(), 0);
}

#[test]
fn gather_strict_and_lenient() {
    let mut s: ObjStore<u8, &'static str> = ObjStore::new();
    s.insert(0, payload(1, "a"));
    s.insert(1, None);
    s.insert_at(3, 3, payload(2, "b"), true).unwrap();
    let lenient = s.gather_objects_ref(&[3, 1, 2, 0, 10], false).unwrap();
    let keys: Vec<Option<usize>> = lenient.iter().map(|p| p.map(|p| p.key)).collect();
    assert_eq!(keys, vec![Some(2), None, None, Some(1), None]);
    assert_eq!(s.gather_objects_ref(&[0, 3], true).unwrap().len(), 2);
    assert_eq!(s.gather_objects_ref(&[0, 1], true).err(), Some(StoreError::IdOutOfBounds));
    assert_eq!(s.gather_objects_ref(&[2], true).err(), Some(StoreError::IdOutOfBounds));
    assert_eq!(s.gather_objects_ref(&[10], true).err(), Some(StoreError::IdOutOfBounds));
}

#[test]
fn get_mut_changes_entry_in_place() {
    let mut s: ObjStore<u8, &'static str> = ObjStore::new();
    s.insert(1, payload(5, "v"));
    s.get_mut(0).unwrap().geom = 9;
    assert_eq!(s.get(0).unwrap().geom, 9);
    assert_eq!(s.min_id_for_obj(5), Some(0));
    assert!(s.get_mut(1).is_none());
}

#[test]
fn refilled_hole_leaves_free_list() {
    let mut s: ObjStore<u8, &'static str> = ObjStore::new();
    assert_eq!(s.insert(1, None), 0);
    assert!(s.pop_id(0).is_some());
    assert_eq!(s.insert_at(0, 2, payload(4, "k"), false), Ok(()));
    assert_eq!(s.len(), 1);
    assert_eq!(s.alloc_id(), 1);
    assert_eq!(s.insert(3, None), 1);
    assert_eq!(s.len(), 2);
    assert_eq!(s.get(0).unwrap().geom, 2);
    assert_eq!(s.get(1).unwrap().geom, 3);
}
