use kernel_core::collections::{ArcSwap, HandleMap};
use std::collections::HashSet;
use std::sync::Arc;

/// Tests the basic functionality of `ArcSwap` in a single-threaded context.
#[test]
fn test_single_thread_load_and_swap() {
    let data1 = Arc::new(5);
    let data2 = Arc::new(10);
    let mut arc_swap = ArcSwap::new(data1.clone());

    let loaded = arc_swap.load();
    assert_eq!(*loaded, 5);

    let old = arc_swap.swap(data2.clone());
    assert_eq!(*old, 5);

    let loaded = arc_swap.load();
    assert_eq!(*loaded, 10);
}

/// Tests the reference counting to ensure `Arc` counts are managed correctly.
#[test]
fn test_arc_counts() {
    let data = Arc::new(0);
    let mut arc_swap = ArcSwap::new(data.clone());
    assert_eq!(Arc::strong_count(&data), 2);
    {
        let loaded = arc_swap.load();
        assert_eq!(Arc::strong_count(&data), 3);
        drop(loaded);
    }
    assert_eq!(Arc::strong_count(&data), 2);
    let data2 = Arc::new(1);
    arc_swap.swap(data2.clone());
    assert_eq!(Arc::strong_count(&data), 1);
    assert_eq!(Arc::strong_count(&data2), 2);
    drop(data2);
    let loaded = arc_swap.load();
    assert_eq!(Arc::strong_count(&loaded), 2);
    drop(loaded);
}

/// Tests that `ArcSwap` properly drops the contained `Arc<T>` on drop.
#[test]
fn test_drop() {
    #[allow(dead_code)]
    struct TestDrop(Arc<()>);
    let drop_flag = Arc::new(());
    let data = Arc::new(TestDrop(drop_flag.clone()));
    let arc_swap = ArcSwap::new(data);
    assert_eq!(Arc::strong_count(&drop_flag), 2);
    drop(arc_swap);
    assert_eq!(Arc::strong_count(&drop_flag), 1);
}

/// Test that inserting a value into the map works and that it can be retrieved.
#[test]
fn test_insert_and_get() {
    let max_handle = 10;
    let mut handle_map: HandleMap<u32> = HandleMap::new(max_handle);
    let value = Arc::new(42);
    let handle = handle_map.insert(value.clone()).expect("Insert failed");
    let retrieved_value = handle_map.get(handle).expect("Value not found");
    assert_eq!(*retrieved_value, 42);
    assert!(Arc::ptr_eq(&retrieved_value, &value));
}

#[test]
fn get_back_what_you_put_in() {
    for n in [16u32, 1024, 0xffff] {
        let mut map: HandleMap<usize> = HandleMap::new(n);
        let mut handles = Vec::new();
        let mut values = HashSet::new();
        for i in 0..n {
            let value = (i as usize) * 1737;
            let handle = map.insert(Arc::new(value)).expect("insert");
            handles.push(handle);
            values.insert((handle, value));
        }
        handles.reverse();
        for handle in handles {
            let value = map.get(handle).expect("handle in map");
            assert!(values.remove(&(handle, *value)));
        }
        assert!(values.is_empty());
    }
}

#[test]
fn remove_back_what_you_put_in() {
    for n in [16u32, 1024, 0xffff] {
        let mut map: HandleMap<usize> = HandleMap::new(n);
        let mut handles = Vec::new();
        let mut values = HashSet::new();
        for i in 0..n {
            let value = (i as usize) * 7371;
            let handle = map.insert(Arc::new(value)).expect("insert");
            handles.push(handle);
            values.insert((handle, value));
        }
        handles.rotate_left(7);
        for handle in handles {
            let value = map.remove(handle).expect("handle in map");
            assert!(values.remove(&(handle, *value)));
            assert!(map.get(handle).is_none());
        }
        assert!(values.is_empty());
    }
}

/// Test that `get` returns `None` for an unknown handle.
#[test]
fn test_get_unknown_handle() {
    let max_handle = 10;
    let handle_map: HandleMap<u32> = HandleMap::new(max_handle);
    assert!(handle_map.get(999).is_none());
}

/// Test that `remove` removes the value and subsequent `get` returns `None`.
#[test]
fn test_remove() {
    let max_handle = 10;
    let mut handle_map: HandleMap<u32> = HandleMap::new(max_handle);
    let value = Arc::new(42);
    let handle = handle_map.insert(value.clone()).expect("Insert failed");
    let removed_value = handle_map.remove(handle).expect("Remove failed");
    assert_eq!(*removed_value, 42);
    assert!(handle_map.get(handle).is_none());
}

/// Test that removing an unknown handle returns `None`.
#[test]
fn test_remove_unknown_handle() {
    let max_handle = 10;
    let mut handle_map: HandleMap<u32> = HandleMap::new(max_handle);
    assert!(handle_map.remove(999).is_none());
}

/// Test that inserting more than `max_handle` values returns `Err`.
#[test]
fn test_insert_max_handles() {
    for max_handle in [1u32, 5, 10] {
        let mut handle_map: HandleMap<u32> = HandleMap::new(max_handle);
        let value = Arc::new(42);
        let mut handles = Vec::new();
        for _ in 0..max_handle {
            let handle = handle_map.insert(value.clone()).expect("Insert failed");
            handles.push(handle);
        }
        let result = handle_map.insert(value.clone());
        assert!(result.is_err(), "Expected insert to fail when map is full");
    }
}

/// Test that inserting the same value multiple times returns different handles.
#[test]
fn test_insert_same_value_different_handles() {
    let max_handle = 10;
    let mut handle_map: HandleMap<u32> = HandleMap::new(max_handle);
    let value = Arc::new(42);
    let handle1 = handle_map.insert(value.clone()).expect("Insert failed");
    let handle2 = handle_map.insert(value.clone()).expect("Insert failed");
    assert_ne!(
        handle1, handle2,
        "Handles should be different for the same value"
    );
}

/// Test that handles are unique across different inserts.
#[test]
fn test_handle_uniqueness() {
    let max_handle = 1000;
    let mut handle_map = HandleMap::new(max_handle);
    let value = Arc::new(42);
    let mut handles = HashSet::new();
    for _ in 0..max_handle {
        let handle = handle_map.insert(value.clone()).expect("Insert failed");
        assert!(handles.insert(handle), "Handle was not unique");
    }
}

#[test]
fn handle_map_holds_a_thousand_values_under_distinct_handles() {
    let mut map: HandleMap<(u32, u32)> = HandleMap::new(1024);
    let mut handles = Vec::new();
    for worker in 0..4u32 {
        for i in 0..256u32 {
            handles.push((map.insert(Arc::new((worker, i))).unwrap(), (worker, i)));
        }
    }
    let distinct: HashSet<u32> = handles.iter().map(|(h, _)| *h).collect();
    assert_eq!(distinct.len(), 1024);
    for (handle, value) in &handles {
        assert_eq!(map.get(*handle).as_deref(), Some(value));
    }
    assert!(map.insert(Arc::new((9, 9))).is_err());
}

#[test]
fn handle_map_keys_do_not_alias() {
    let mut map: HandleMap<u32> = HandleMap::new(10);
    assert_eq!(map.insert(Arc::new(7)), Ok(1));
    assert!(map.get(257).is_none());
    assert!(map.get(0).is_none());
    assert!(map.remove(257).is_none());
    assert_eq!(map.get(1).as_deref(), Some(&7));
    let mut map: HandleMap<u32> = HandleMap::new(0x2_0000);
    for i in 0..0x300u32 {
        assert_eq!(map.insert(Arc::new(i)), Ok(i + 1));
    }
    assert_eq!(map.get(0x101).as_deref(), Some(&0x100));
    assert_eq!(map.get(0x201).as_deref(), Some(&0x200));
    assert_eq!(map.remove(0x101).as_deref(), Some(&0x100));
    assert!(map.get(0x101).is_none());
    assert_eq!(map.get(0x1).as_deref(), Some(&0));
    assert_eq!(map.insert(Arc::new(5)), Ok(0x101));
}

#[test]
fn handle_map_stores_for_a_handle_that_was_allocated_first() {
    let mut map: HandleMap<u32> = HandleMap::new(3);
    let handle = map.next_handle().unwrap();
    assert_eq!(handle, 1);
    assert!(map.get(handle).is_none());
    map.store(handle, Arc::new(11));
    assert_eq!(map.get(handle).as_deref(), Some(&11));
    map.store(4, Arc::new(12));
    assert!(map.get(4).is_none());
    assert_eq!(map.remove(2), None);
}

#[test]
fn handle_map_is_as_deep_as_its_largest_handle_has_bytes() {
    for (max_handle, depth) in [
        (1u32, 1usize),
        (0xff, 1),
        (0x100, 2),
        (0xffff, 2),
        (0x1_0000, 3),
        (0xff_ffff, 3),
        (0x100_0000, 4),
        (0x200_0000, 4),
    ] {
        let map: HandleMap<u8> = HandleMap::new(max_handle);
        assert_eq!(map.depth(), depth, "{max_handle:x}");
    }
}
