use aper::store::Store;

#[test]
fn store_child_creates_prefix() {
    let mut store = Store::default();
    let mut handle = store.handle();

    let mut child_handle = handle.child(&mut store, b"foo".to_vec());
    let _ = child_handle.child(&mut store, b"bar".to_vec());

    assert_eq!(
        store.prefixes(),
        vec![vec![b"foo".to_vec()], vec![b"foo".to_vec(), b"bar".to_vec()],]
    );
}

#[test]
fn store_deleting_parent_deletes_child() {
    let mut store = Store::default();
    let mut handle = store.handle();

    let mut child_handle = handle.child(&mut store, b"foo".to_vec());
    let _ = child_handle.child(&mut store, b"bar".to_vec());

    handle.delete_child(&mut store, b"foo".to_vec());

    assert_eq!(store.prefixes(), vec![] as Vec<Vec<Vec<u8>>>);
}

#[test]
fn core_child_creates_prefix() {
    let mut store = Store::default();
    let mut handle = store.handle();

    let mut child_handle = handle.child(&mut store, b"foo".to_vec());
    let _ = child_handle.child(&mut store, b"bar".to_vec());

    assert_eq!(
        store.prefixes(),
        vec![vec![b"foo".to_vec()], vec![b"foo".to_vec(), b"bar".to_vec()],]
    );
}

#[test]
fn core_deleting_parent_deletes_child() {
    let mut store = Store::default();
    let mut handle = store.handle();

    let mut child_handle = handle.child(&mut store, b"foo".to_vec());
    let _ = child_handle.child(&mut store, b"bar".to_vec());

    handle.delete_child(&mut store, b"foo".to_vec());

    assert_eq!(store.prefixes(), vec![] as Vec<Vec<Vec<u8>>>);
}

#[test]
fn set_then_get_reads_back() {
    let mut store = Store::default();
    let mut root = store.handle();
    let mut child = root.child(&mut store, b"c".to_vec());
    child.set(&mut store, b"k".to_vec(), b"v".to_vec());
    assert_eq!(child.get(&store, &b"k".to_vec()), Some(b"v".to_vec()));
    assert_eq!(child.get(&store, &b"other".to_vec()), None);
    assert_eq!(root.get(&store, &b"k".to_vec()), None);
    child.delete(&mut store, b"k".to_vec());
    assert_eq!(child.get(&store, &b"k".to_vec()), None);
}

#[test]
fn overlay_hides_and_pop_restores() {
    let mut store = Store::default();
    let mut h = store.handle();
    h.set(&mut store, b"k".to_vec(), b"1".to_vec());
    store.push_overlay();
    h.set(&mut store, b"k".to_vec(), b"2".to_vec());
    assert_eq!(h.get(&store, &b"k".to_vec()), Some(b"2".to_vec()));
    store.pop_overlay();
    assert_eq!(h.get(&store, &b"k".to_vec()), Some(b"1".to_vec()));
}

#[test]
fn combine_down_keeps_reads() {
    let mut store = Store::default();
    let mut h = store.handle();
    h.set(&mut store, b"a".to_vec(), b"1".to_vec());
    store.push_overlay();
    h.set(&mut store, b"b".to_vec(), b"2".to_vec());
    h.delete(&mut store, b"a".to_vec());
    store.combine_down();
    assert_eq!(store.inner.layers.len(), 1);
    assert_eq!(h.get(&store, &b"a".to_vec()), None);
    assert_eq!(h.get(&store, &b"b".to_vec()), Some(b"2".to_vec()));
}

#[test]
fn combine_down_of_lone_layer_drops_it() {
    let mut store = Store::default();
    store.combine_down();
    assert_eq!(store.inner.layers.len(), 0);
}

#[test]
fn deleted_child_reads_nothing() {
    let mut store = Store::default();
    let mut root = store.handle();
    let mut child = root.child(&mut store, b"x".to_vec());
    let mut grandchild = child.child(&mut store, b"y".to_vec());
    grandchild.set(&mut store, b"k".to_vec(), b"v".to_vec());
    root.delete_child(&mut store, b"x".to_vec());
    assert_eq!(grandchild.get(&store, &b"k".to_vec()), None);
}

#[test]
fn mutations_replay_the_top_layer() {
    let mut server = Store::default();
    let mut h = server.handle();
    let mut c = h.child(&mut server, b"p".to_vec());
    c.set(&mut server, b"k".to_vec(), b"v".to_vec());
    c.delete(&mut server, b"gone".to_vec());
    let ms = server.top_layer_mutations();
    assert_eq!(ms.len(), 1);

    let mut client = Store::default();
    client.mutate(&ms);
    let c2 = aper::handle::StoreHandle { prefix: vec![b"p".to_vec()] };
    assert_eq!(c2.get(&client, &b"k".to_vec()), Some(b"v".to_vec()));
    assert_eq!(c2.get(&client, &b"gone".to_vec()), None);
    assert_eq!(client.prefixes(), server.prefixes());
}

#[test]
fn notify_dirty_returns_each_changed_prefix_once() {
    let mut store = Store::default();
    let mut h = store.handle();
    let mut c = h.child(&mut store, b"p".to_vec());
    c.set(&mut store, b"a".to_vec(), b"1".to_vec());
    c.set(&mut store, b"b".to_vec(), b"2".to_vec());
    let dirty = store.notify_dirty();
    assert_eq!(dirty, vec![vec![b"p".to_vec()]]);
    assert_eq!(store.notify_dirty(), Vec::<Vec<Vec<u8>>>::new());
}

#[test]
fn listeners_kept_only_while_they_answer_true() {
    let mut store = Store::default();
    let h = store.handle();
    h.listen(&mut store, 7);
    h.listen(&mut store, 8);
    assert_eq!(store.inner.listeners.listeners_of(&vec![]), vec![7, 8]);
    store.alert(&vec![], &vec![false, true]);
    assert_eq!(store.inner.listeners.listeners_of(&vec![]), vec![8]);
    store.alert(&vec![], &vec![false]);
    assert_eq!(store.inner.listeners.listeners_of(&vec![]), Vec::<u64>::new());
}

#[test]
fn iter_lists_visible_values_in_key_order() {
    let mut store = Store::default();
    let mut h = store.handle();
    h.set(&mut store, b"b".to_vec(), b"2".to_vec());
    h.set(&mut store, b"a".to_vec(), b"1".to_vec());
    store.push_overlay();
    h.set(&mut store, b"c".to_vec(), b"3".to_vec());
    h.delete(&mut store, b"b".to_vec());
    let items = h.iter(&store).into_vec();
    assert_eq!(
        items,
        vec![(b"a".to_vec(), b"1".to_vec()), (b"c".to_vec(), b"3".to_vec())]
    );
}

#[test]
fn combine_down_over_a_deleted_prefix_lets_lower_keys_show() {
    let mut store = Store::default();
    let mut root = store.handle();
    let mut p = root.child(&mut store, b"p".to_vec());
    p.set(&mut store, b"j".to_vec(), b"w".to_vec());
    store.push_overlay();
    root.delete_child(&mut store, b"p".to_vec());
    store.push_overlay();
    p.set(&mut store, b"k".to_vec(), b"v".to_vec());
    assert_eq!(p.get(&store, &b"j".to_vec()), None);
    store.combine_down();
    assert_eq!(p.get(&store, &b"k".to_vec()), Some(b"v".to_vec()));
    assert_eq!(p.get(&store, &b"j".to_vec()), Some(b"w".to_vec()));
}

#[test]
fn pop_overlay_undoes_every_write_since_push() {
    let mut store = Store::default();
    let mut root = store.handle();
    let mut a = root.child(&mut store, b"a".to_vec());
    a.set(&mut store, b"k".to_vec(), b"1".to_vec());
    let before = store.prefixes();
    store.push_overlay();
    a.set(&mut store, b"k".to_vec(), b"2".to_vec());
    let _ = root.child(&mut store, b"b".to_vec());
    root.delete_child(&mut store, b"a".to_vec());
    assert_ne!(store.prefixes(), before);
    store.pop_overlay();
    assert_eq!(store.prefixes(), before);
    assert_eq!(a.get(&store, &b"k".to_vec()), Some(b"1".to_vec()));
}

#[test]
fn only_written_prefixes_are_reported_dirty() {
    let mut store = Store::default();
    let mut root = store.handle();
    let mut a = root.child(&mut store, b"a".to_vec());
    let mut b = root.child(&mut store, b"b".to_vec());
    a.set(&mut store, b"k".to_vec(), b"1".to_vec());
    assert_eq!(store.notify_dirty(), vec![vec![b"a".to_vec()]]);
    b.set(&mut store, b"k".to_vec(), b"1".to_vec());
    assert_eq!(store.notify_dirty(), vec![vec![b"b".to_vec()]]);
}

#[test]
fn ensuring_a_prefix_deleted_in_the_same_layer_makes_it_visible() {
    let mut store = Store::default();
    let mut handle = store.handle();
    let mut foo = handle.child(&mut store, b"foo".to_vec());
    foo.set(&mut store, b"k".to_vec(), b"v".to_vec());

    handle.delete_child(&mut store, b"foo".to_vec());
    assert_eq!(store.prefixes(), vec![] as Vec<Vec<Vec<u8>>>);

    let again = handle.child(&mut store, b"foo".to_vec());
    assert_eq!(store.prefixes(), vec![vec![b"foo".to_vec()]]);
    assert_eq!(again.get(&store, &b"k".to_vec()), None);
}

#[test]
fn ensuring_a_prefix_deleted_in_an_overlay_keeps_lower_values_deleted() {
    let mut store = Store::default();
    let mut handle = store.handle();
    let mut foo = handle.child(&mut store, b"foo".to_vec());
    foo.set(&mut store, b"k".to_vec(), b"v".to_vec());

    store.push_overlay();
    handle.delete_child(&mut store, b"foo".to_vec());
    store.ensure(&vec![b"foo".to_vec()]);
    assert_eq!(store.prefixes(), vec![vec![b"foo".to_vec()]]);
    assert_eq!(store.get(&vec![b"foo".to_vec()], &b"k".to_vec()), None);

    store.combine_down();
    assert_eq!(store.prefixes(), vec![vec![b"foo".to_vec()]]);
    assert_eq!(store.get(&vec![b"foo".to_vec()], &b"k".to_vec()), None);
}

#[test]
fn ensuring_a_present_prefix_changes_nothing() {
    let mut store = Store::default();
    let mut handle = store.handle();
    let mut foo = handle.child(&mut store, b"foo".to_vec());
    foo.set(&mut store, b"k".to_vec(), b"v".to_vec());
    store.ensure(&vec![b"foo".to_vec()]);
    assert_eq!(store.get(&vec![b"foo".to_vec()], &b"k".to_vec()), Some(b"v".to_vec()));
}

#[test]
fn a_listener_is_alerted_after_a_write_under_its_prefix_until_it_answers_false() {
    let mut store = Store::default();
    let mut handle = store.handle();
    let mut foo = handle.child(&mut store, b"foo".to_vec());
    let mut bar = handle.child(&mut store, b"bar".to_vec());
    let _ = store.notify_dirty();
    foo.listen(&mut store, 3);
    let p = vec![b"foo".to_vec()];

    bar.set(&mut store, b"k".to_vec(), b"v".to_vec());
    assert!(!store.notify_dirty().contains(&p));

    foo.set(&mut store, b"k".to_vec(), b"v".to_vec());
    let dirty = store.notify_dirty();
    assert_eq!(dirty.iter().filter(|q| **q == p).count(), 1);
    assert_eq!(store.inner.listeners.listeners_of(&p), vec![3]);
    store.alert(&p, &vec![true]);
    assert_eq!(store.inner.listeners.listeners_of(&p), vec![3]);

    foo.set(&mut store, b"k".to_vec(), b"w".to_vec());
    assert!(store.notify_dirty().contains(&p));
    store.alert(&p, &vec![false]);
    assert_eq!(store.inner.listeners.listeners_of(&p), Vec::<u64>::new());
}

#[test]
fn combining_down_keeps_prefixes_and_change_marks() {
    let mut store = Store::default();
    let mut handle = store.handle();
    let mut foo = handle.child(&mut store, b"foo".to_vec());
    foo.set(&mut store, b"k".to_vec(), b"v".to_vec());
    let _ = store.notify_dirty();

    store.push_overlay();
    let mut bar = handle.child(&mut store, b"bar".to_vec());
    bar.set(&mut store, b"k".to_vec(), b"w".to_vec());
    let before = store.prefixes();
    store.combine_down();
    assert_eq!(store.prefixes(), before);
    assert_eq!(store.get(&vec![b"bar".to_vec()], &b"k".to_vec()), Some(b"w".to_vec()));
    assert_eq!(store.get(&vec![b"foo".to_vec()], &b"k".to_vec()), Some(b"v".to_vec()));
    assert_eq!(store.notify_dirty(), vec![vec![b"bar".to_vec()]]);
    assert_eq!(store.notify_dirty(), Vec::<Vec<Vec<u8>>>::new());
}

#[test]
fn a_listener_registered_twice_stays_when_either_answer_is_true() {
    let mut store = Store::default();
    let h = store.handle();
    h.listen(&mut store, 3);
    h.listen(&mut store, 3);
    h.listen(&mut store, 4);
    store.alert(&vec![], &vec![false, true, false]);
    assert_eq!(store.inner.listeners.listeners_of(&vec![]), vec![3]);
}
