use aper::atom_rc::AtomRc;
use aper::state_machine::StateMachine;
use aper::state_map::StateMap;

#[test]
fn map_is_empty() {
    let map: StateMap<Vec<u8>, AtomRc<u32>> = StateMap::new();

    let values: Vec<(&Vec<u8>, &AtomRc<u32>)> = map.iter();

    assert!(values.is_empty());
}

#[test]
fn map_inserts() {
    let mut map: StateMap<Vec<u8>, AtomRc<u32>> = StateMap::new();

    let transition = map.insert(b"foo".to_vec(), AtomRc::new(44));
    map = match map.apply(&transition) {
        Ok(m) => m,
        Err(_) => panic!("refused"),
    };

    let values: Vec<(&Vec<u8>, &AtomRc<u32>)> = map.iter();
    assert_eq!(values.len(), 1);
    assert_eq!(values[0].0, &b"foo".to_vec());
    assert_eq!(*values[0].1.value(), 44);
}

#[test]
fn map_deletes_and_orders_keys() {
    let map: StateMap<Vec<u8>, AtomRc<u32>> = StateMap::new();
    let map = map.apply(&map.insert(b"b".to_vec(), AtomRc::new(2))).ok().unwrap();
    let map = map.apply(&map.insert(b"a".to_vec(), AtomRc::new(1))).ok().unwrap();
    let keys: Vec<Vec<u8>> = map.iter().iter().map(|(k, _)| (*k).clone()).collect();
    assert_eq!(keys, vec![b"a".to_vec(), b"b".to_vec()]);
    let map = map.apply(&map.delete(b"a".to_vec())).ok().unwrap();
    assert!(map.get(&b"a".to_vec()).is_none());
    assert_eq!(*map.get(&b"b".to_vec()).unwrap().value(), 2);
}
