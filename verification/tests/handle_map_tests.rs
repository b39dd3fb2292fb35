use handle_map::Handle;
use handle_map::HandleError;
use handle_map::HandleMap;
use handle_map::HANDLE_MAGIC;

#[derive(PartialEq, Debug)]
struct Foobar(usize);

#[test]
fn test_invalid_handle() {
    assert_eq!(Handle::from_u64(0), Err(HandleError::InvalidHandle));
    // Valid except `version` is odd
    assert_eq!(
        Handle::from_u64(((HANDLE_MAGIC as u64) << 48) | 0x1234_0012_0001),
        Err(HandleError::InvalidHandle)
    );

    assert_eq!(
        Handle::from_u64(((HANDLE_MAGIC as u64) << 48) | 0x1234_0012_0002),
        Ok(Handle { version: 0x0002, index: 0x0012, map_id: 0x1234 })
    );
}

#[test]
fn test_correct_value_single() {
    let mut map = HandleMap::new();
    let handle = map.insert(Foobar(1234));
    assert_eq!(map.get(handle).unwrap(), &Foobar(1234));
    map.delete(handle).unwrap();
    assert_eq!(map.get(handle), Err(HandleError::StaleVersion));
}

#[test]
fn test_correct_value_multiple() {
    let mut map = HandleMap::new();
    let handle1 = map.insert(Foobar(1234));
    let handle2 = map.insert(Foobar(4321));
    assert_eq!(map.get(handle1).unwrap(), &Foobar(1234));
    assert_eq!(map.get(handle2).unwrap(), &Foobar(4321));
    map.delete(handle1).unwrap();
    assert_eq!(map.get(handle1), Err(HandleError::StaleVersion));
    assert_eq!(map.get(handle2).unwrap(), &Foobar(4321));
}

#[test]
fn test_wrong_map() {
    let mut map1 = HandleMap::new();
    let mut map2 = HandleMap::new();

    let handle1 = map1.insert(Foobar(1234));
    let handle2 = map2.insert(Foobar(1234));

    assert_eq!(map1.get(handle1).unwrap(), &Foobar(1234));
    assert_eq!(map2.get(handle2).unwrap(), &Foobar(1234));

    assert_eq!(map1.get(handle2), Err(HandleError::WrongMap));
    assert_eq!(map2.get(handle1), Err(HandleError::WrongMap));
}

#[test]
fn test_bad_index() {
    let map: HandleMap<Foobar> = HandleMap::new();
    assert_eq!(
        map.get(Handle { map_id: map.id, version: 2, index: 100 }),
        Err(HandleError::IndexPastEnd)
    );
}

#[test]
fn test_resizing() {
    let mut map = HandleMap::new();
    let mut handles = vec![];
    for i in 0..1000 {
        handles.push(map.insert(Foobar(i)))
    }
    for (i, &h) in handles.iter().enumerate() {
        assert_eq!(map.get(h).unwrap(), &Foobar(i));
        map.delete(h).unwrap();
    }
    let mut handles2 = vec![];
    for i in 1000..2000 {
        // Not really related to this test, but it's convenient to check this here.
        let h = map.insert(Foobar(i));
        let hu = h.into_u64();
        assert_eq!(Handle::from_u64(hu).unwrap(), h);
        handles2.push(hu);
    }

    for (i, (&h0, h1u)) in handles.iter().zip(handles2).enumerate() {
        // It's still a stale version, even though the slot is occupied again.
        assert_eq!(map.get(h0), Err(HandleError::StaleVersion));
        let h1 = Handle::from_u64(h1u).unwrap();
        assert_eq!(map.get(h1).unwrap(), &Foobar(i + 1000));
    }
}
