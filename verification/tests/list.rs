use aper::atom_rc::AtomRc;
use aper::counter::Counter;
use aper::list::{List, ListConflict, ListOperation, ListPosition};
use aper::state_machine::StateMachine;
use aper::zeno_index::ZenoIndex;

fn applied<T: StateMachine>(list: &List<T>, op: ListOperation<T>) -> List<T> {
    match list.apply(&op) {
        Ok(l) => l,
        Err(_) => panic!("operation refused"),
    }
}

fn values(list: &List<AtomRc<i64>>) -> Vec<i64> {
    list.iter().iter().map(|d| *d.value.value()).collect()
}

fn values_u32(list: &List<AtomRc<u32>>) -> Vec<u32> {
    list.iter().iter().map(|d| *d.value.value()).collect()
}

fn location_of<T: StateMachine>(list: &List<T>, id: u128) -> ZenoIndex {
    list.iter().iter().find(|d| d.id == id).unwrap().location.clone()
}

#[test]
fn test_conflict() {
    let my_list: List<AtomRc<u32>> = List::new();

    let id = 0x1234_5678_u128;
    let transition = my_list.move_item(id, ZenoIndex::default());

    assert!(matches!(my_list.apply(&transition), Err(ListConflict::ItemDoesNotExist(i)) if i == id));
}

#[test]
fn test_get_location() {
    let mut my_list: List<AtomRc<u32>> = List::new();
    let mut ids: Vec<u128> = vec![];

    for i in 0..10 {
        let (id, transition) = my_list.append(AtomRc::new(i));
        ids.push(id);

        my_list = applied(&my_list, transition);
    }

    let first = my_list.iter()[0].location.clone();
    let last = my_list.iter()[9].location.clone();

    // Beginning
    assert!(my_list.get_location(ListPosition::Beginning) < first);

    // Ending
    assert!(my_list.get_location(ListPosition::End) > last);

    // AbsolutePosition
    assert!(
        my_list.get_location(ListPosition::AbsolutePosition(location_of(&my_list, ids[4])))
            > location_of(&my_list, ids[4])
    );

    // Before
    assert!(
        my_list.get_location(ListPosition::Before(ids[7], location_of(&my_list, ids[7])))
            < location_of(&my_list, ids[7])
    );

    // After
    assert!(
        my_list.get_location(ListPosition::After(ids[7], location_of(&my_list, ids[7])))
            > location_of(&my_list, ids[7])
    );
}

#[test]
fn test_insert_between_merge() {
    let my_list: List<AtomRc<u32>> = List::new();

    let (id1, transition1) = my_list.append(AtomRc::new(1));
    let (id2, transition2) = my_list.append(AtomRc::new(2));

    let my_list = applied(&my_list, transition2); // my_list = [2]
    let my_list = applied(&my_list, transition1); // my_list = [2, 1]

    let (_id3, transition3) = my_list.insert_between(&id2, &id1, AtomRc::new(3));

    let (_id4, transition4) = my_list.insert_between(&id2, &id1, AtomRc::new(4));

    let my_list = applied(&my_list, transition4);
    assert_eq!(vec![2, 4, 1], values_u32(&my_list));
    let my_list = applied(&my_list, transition3);
    assert_eq!(vec![2, 4, 3, 1], values_u32(&my_list));
}

#[test]
fn test_list() {
    let list: List<AtomRc<i64>> = List::default();

    // Test Append.
    let list = applied(&list, list.append(AtomRc::new(5)).1);
    let list = applied(&list, list.append(AtomRc::new(3)).1);
    let list = applied(&list, list.append(AtomRc::new(143)).1);

    // Test Prepend.
    let list = applied(&list, list.prepend(AtomRc::new(99)).1);

    assert_eq!(vec![99, 5, 3, 143], values(&list));

    // Test Insert.
    let locations: Vec<ZenoIndex> = list.iter().iter().map(|d| d.location.clone()).collect();

    let list = applied(
        &list,
        list.insert(ZenoIndex::new_between(&locations[2], &locations[3]), AtomRc::new(44)).1,
    );
    let list = applied(
        &list,
        list.insert(ZenoIndex::new_between(&locations[0], &locations[1]), AtomRc::new(23)).1,
    );
    let list = applied(
        &list,
        list.insert(ZenoIndex::new_between(&locations[1], &locations[2]), AtomRc::new(84)).1,
    );

    assert_eq!(vec![99, 23, 5, 84, 3, 44, 143], values(&list));

    // Test Delete.
    let uuids: Vec<u128> = list.iter().iter().map(|d| d.id).collect();
    let list = applied(&list, list.delete(uuids[2]));
    let list = applied(&list, list.delete(uuids[3]));

    assert_eq!(vec![99, 23, 3, 44, 143], values(&list));

    // Test Move.
    let uuids: Vec<u128> = list.iter().iter().map(|d| d.id).collect();
    let locations: Vec<ZenoIndex> = list.iter().iter().map(|d| d.location.clone()).collect();

    let list = applied(
        &list,
        list.move_item(uuids[0], ZenoIndex::new_between(&locations[2], &locations[3])),
    );
    let list = applied(&list, list.move_item(uuids[4], ZenoIndex::new_before(&locations[0])));

    assert_eq!(vec![143, 23, 3, 99, 44], values(&list));
}

#[test]
fn list_apply_to_item_and_child_conflict_free() {
    let list: List<Counter> = List::new();
    let (id, op) = list.append(Counter::new(1));
    let list = applied(&list, op);
    let op = list.map_item(id, |c: &Counter| Counter::increment(c.value() + 1));
    let list = applied(&list, op);
    assert_eq!(list.iter()[0].value.value(), 3);
    let missing = list.map_item(id, |_c: &Counter| Counter::set(0));
    let list = applied(&list, list.delete(id));
    assert!(matches!(list.apply(&missing), Err(ListConflict::ItemDoesNotExist(i)) if i == id));
    assert_eq!(list.iter().len(), 0);
}

#[test]
fn list_first_location_is_one_half() {
    let list: List<Counter> = List::new();
    assert_eq!(list.get_location(ListPosition::Beginning), ZenoIndex::default());
    assert_eq!(list.get_location(ListPosition::End), ZenoIndex::default());
    let (_, op) = list.append(Counter::new(0));
    let list = applied(&list, op);
    assert_eq!(list.iter()[0].location, ZenoIndex::default());
    assert_eq!(list.get_location(ListPosition::Beginning), ZenoIndex(vec![64]));
    assert_eq!(list.get_location(ListPosition::End), ZenoIndex(vec![192]));
    assert_eq!(
        list.get_location(ListPosition::AbsolutePosition(ZenoIndex::default())),
        ZenoIndex(vec![192])
    );
}

#[test]
fn list_before_and_after_fall_back_to_the_given_location() {
    let list: List<Counter> = List::new();
    let (id, op) = list.append(Counter::new(0));
    let list = applied(&list, op);
    let loc = location_of(&list, id);
    assert!(list.get_location(ListPosition::Before(id, ZenoIndex::default())) < loc);
    assert!(list.get_location(ListPosition::After(id, ZenoIndex::default())) > loc);
    let far = ZenoIndex(vec![10]);
    assert!(list.get_location(ListPosition::Before(999, far.clone())) < far);
    assert!(list.get_location(ListPosition::After(999, far.clone())) > far);
    assert_eq!(list.get_location(ListPosition::AbsolutePosition(far.clone())), far);
}

#[test]
fn fresh_identifiers_are_version_four_uuids() {
    let list: List<AtomRc<i64>> = List::default();
    let (a, _) = list.append(AtomRc::new(1));
    let (b, _) = list.prepend(AtomRc::new(2));
    for id in [a, b] {
        assert_eq!((id >> 76) & 0xF, 4);
        assert_eq!((id >> 62) & 0x3, 2);
    }
    assert_ne!(a, b);
}
