use handle_map::ConcurrentHandleMap;
use handle_map::Handle;
use handle_map::HandleError;
use handle_map::HandleMap;
use handle_map::HANDLE_MAGIC;
use handle_map::MAX_CAPACITY;

#[derive(PartialEq, Debug)]
struct Foobar(usize);

#[test]
fn encode_decode_round_trip() {
    let mut map = HandleMap::new();
    let h = map.insert(Foobar(7));
    let packed = h.into_u64();
    assert_eq!(Handle::from_u64(packed), Ok(h));
}

#[test]
fn encoded_handles_are_non_negative() {
    let mut map = HandleMap::new();
    for i in 0..100 {
        let h = map.insert(Foobar(i));
        assert!((h.into_u64() as i64) >= 0);
    }
    let extreme = Handle { map_id: 0xFFFF, version: 0xFFFE, index: 0xFFFF };
    assert!((extreme.into_u64() as i64) >= 0);
}

#[test]
fn decode_rejects_bad_patterns() {
    // the reserved "no handle" sentinel
    assert_eq!(Handle::from_u64(0), Err(HandleError::InvalidHandle));
    assert!(!Handle::is_valid(0));
    // wrong magic in the top 16 bits, even version
    assert_eq!(
        Handle::from_u64(0x1234_0000_0000_0002),
        Err(HandleError::InvalidHandle)
    );
    // correct magic but odd low bit
    assert_eq!(
        Handle::from_u64(((HANDLE_MAGIC as u64) << 48) | 1),
        Err(HandleError::InvalidHandle)
    );
    // correct magic, even low bit: accepted
    assert!(Handle::is_valid((HANDLE_MAGIC as u64) << 48));
}

#[test]
fn index_past_end_never_faults() {
    let mut map = HandleMap::new();
    let h = map.insert(Foobar(1));
    let past = Handle { map_id: h.map_id, version: 2, index: 0x7000 };
    assert_eq!(map.get(past), Err(HandleError::IndexPastEnd));
    assert_eq!(map.get_mut(past), Err(HandleError::IndexPastEnd));
    assert_eq!(map.delete(past), Err(HandleError::IndexPastEnd));
    // the arena is untouched
    assert_eq!(map.get(h).unwrap(), &Foobar(1));
}

#[test]
fn occupied_count_stays_below_capacity() {
    let mut map = HandleMap::new_with_capacity(4);
    assert!(map.len() < map.capacity());
    let mut handles = vec![];
    for i in 0..50 {
        handles.push(map.insert(Foobar(i)));
        assert!(map.len() < map.capacity());
    }
    for h in handles {
        map.delete(h).unwrap();
        assert!(map.len() < map.capacity());
    }
}

#[test]
fn growth_scenario_thousand_values() {
    let mut map = HandleMap::new_with_capacity(4);
    assert_eq!(map.capacity(), 4);
    let mut handles = vec![];
    for i in 0..1000 {
        handles.push(map.insert(Foobar(i)));
    }
    for (i, &h) in handles.iter().enumerate() {
        assert_eq!(map.get(h).unwrap(), &Foobar(i));
    }
    // capacity grew by doubling from 4 and never exceeds the cap
    assert_eq!(map.capacity(), 1024);
    assert!(map.capacity() <= MAX_CAPACITY);
    for &h in handles.iter() {
        map.delete(h).unwrap();
    }
    assert_eq!(map.len(), 0);
    let mut new_handles = vec![];
    for i in 0..1000 {
        new_handles.push(map.insert(Foobar(1_000_000 + i)));
    }
    for &h in handles.iter() {
        assert_eq!(map.get(h), Err(HandleError::StaleVersion));
    }
    for (i, &h) in new_handles.iter().enumerate() {
        assert_eq!(map.get(h).unwrap(), &Foobar(1_000_000 + i));
    }
}

#[test]
fn two_arenas_reject_each_others_handles() {
    let mut a = HandleMap::new();
    let mut b = HandleMap::new();
    let ha = a.insert(Foobar(1));
    let hb = b.insert(Foobar(2));
    assert_eq!(a.get(hb), Err(HandleError::WrongMap));
    assert_eq!(b.get(ha), Err(HandleError::WrongMap));
    assert_eq!(a.delete(hb), Err(HandleError::WrongMap));
    assert_eq!(b.delete(ha), Err(HandleError::WrongMap));
}

#[test]
fn get_mut_writes_through() {
    let mut map = HandleMap::new();
    let h = map.insert(Foobar(10));
    {
        let v = map.get_mut(h).unwrap();
        v.0 = 99;
    }
    assert_eq!(map.get(h).unwrap(), &Foobar(99));
    map.delete(h).unwrap();
    assert_eq!(map.get_mut(h), Err(HandleError::StaleVersion));
}

#[test]
fn default_arena_is_empty() {
    let map: HandleMap<Foobar> = HandleMap::default();
    assert_eq!(map.len(), 0);
    assert_eq!(map.capacity(), 4);
}

#[test]
fn stale_version_error_orders_after_earlier_checks() {
    let mut map = HandleMap::new();
    let h = map.insert(Foobar(5));
    // wrong map id wins over everything else
    let foreign = Handle { map_id: h.map_id.wrapping_add(1), version: h.version, index: h.index };
    assert_eq!(map.get(foreign), Err(HandleError::WrongMap));
    // in-range index with a version that was never issued
    let never_issued = Handle { map_id: h.map_id, version: h.version.wrapping_add(2), index: h.index };
    assert_eq!(map.get(never_issued), Err(HandleError::StaleVersion));
    assert_eq!(map.get(h).unwrap(), &Foobar(5));
}

#[test]
fn concurrent_insert_get_delete() {
    let arena: ConcurrentHandleMap<Foobar> = ConcurrentHandleMap::new();
    let h = arena.insert(Foobar(42)).unwrap();
    let seen = arena.get(h, |v: &Foobar| v.0).unwrap();
    assert_eq!(seen, 42);
    arena.delete(h).unwrap();
    assert_eq!(arena.get(h, |v: &Foobar| v.0), Err(HandleError::StaleVersion));
    assert_eq!(arena.delete(h), Err(HandleError::StaleVersion));
}

#[test]
fn concurrent_get_mut_replaces_value() {
    let arena: ConcurrentHandleMap<Foobar> = ConcurrentHandleMap::new();
    let h = arena.insert(Foobar(1)).unwrap();
    let old = arena.get_mut(h, |v: Foobar| (Foobar(v.0 + 100), v.0)).unwrap();
    assert_eq!(old, 1);
    let seen = arena.get(h, |v: &Foobar| v.0).unwrap();
    assert_eq!(seen, 101);
}

#[test]
fn concurrent_raw_u64_entry_points() {
    let arena: ConcurrentHandleMap<Foobar> = ConcurrentHandleMap::new();
    let h = arena.insert(Foobar(7)).unwrap();
    let packed = h.into_u64();
    assert_eq!(arena.get_u64(packed, |v: &Foobar| v.0), Ok(7));
    assert_eq!(
        arena.get_mut_u64(packed, |v: Foobar| (Foobar(v.0 * 2), v.0)),
        Ok(7)
    );
    assert_eq!(arena.get_u64(packed, |v: &Foobar| v.0), Ok(14));
    assert_eq!(
        arena.get_u64(0, |v: &Foobar| v.0),
        Err(HandleError::InvalidHandle)
    );
    assert_eq!(
        arena.get_mut_u64(3, |v: Foobar| (v, 0usize)),
        Err(HandleError::InvalidHandle)
    );
}

#[test]
fn concurrent_two_arenas_reject_each_other() {
    let a: ConcurrentHandleMap<Foobar> = ConcurrentHandleMap::new();
    let b: ConcurrentHandleMap<Foobar> = ConcurrentHandleMap::new();
    let ha = a.insert(Foobar(1)).unwrap();
    let hb = b.insert(Foobar(2)).unwrap();
    assert_eq!(a.get(hb, |v: &Foobar| v.0), Err(HandleError::WrongMap));
    assert_eq!(b.get(ha, |v: &Foobar| v.0), Err(HandleError::WrongMap));
}

#[test]
fn entry_states_report_occupancy() {
    let mut map = HandleMap::new();
    let h = map.insert(Foobar(3));
    assert!(map.entries[h.index as usize].state.is_occupied());
    assert_eq!(
        map.entries[h.index as usize].state.get_item(),
        Some(&Foobar(3))
    );
    let mut ends = 0;
    for e in map.entries.iter() {
        if e.state.is_end_of_list() {
            ends += 1;
        }
    }
    // exactly one slot terminates the free list
    assert_eq!(ends, 1);
}

#[test]
fn entry_state_mutable_access() {
    let mut map = HandleMap::new();
    let h = map.insert(Foobar(3));
    if let Some(v) = map.entries[h.index as usize].state.get_item_mut() {
        v.0 = 5;
    }
    assert_eq!(map.get(h).unwrap(), &Foobar(5));
}
