use aper::treemap::{TreeMap, TreeMapRef, TreeMutation};

#[test]
fn treemap_set_get_delete() {
    let mut map = TreeMap::default();
    let mut root = TreeMapRef::new_root(&map);
    let mut child = root.child(b"c");
    child.set(&mut map, b"k".to_vec(), b"v".to_vec());
    assert_eq!(child.get(&map, &b"k".to_vec()), Some(b"v".to_vec()));
    assert_eq!(root.get(&map, &b"k".to_vec()), None);
    root.set(&mut map, b"k".to_vec(), b"r".to_vec());
    assert_eq!(root.get(&map, &b"k".to_vec()), Some(b"r".to_vec()));
    child.delete(&mut map, b"k".to_vec());
    assert_eq!(child.get(&map, &b"k".to_vec()), None);
}

#[test]
fn treemap_overlays_and_combine_down() {
    let mut map = TreeMap::new();
    let mut root = TreeMapRef::new_root(&map);
    root.set(&mut map, b"a".to_vec(), b"1".to_vec());
    map.push_overlay();
    root.delete(&mut map, b"a".to_vec());
    root.set(&mut map, b"b".to_vec(), b"2".to_vec());
    assert_eq!(root.get(&map, &b"a".to_vec()), None);
    let ms = map.top_layer_mutations();
    assert_eq!(ms.len(), 1);
    assert_eq!(
        ms[0].entries,
        vec![(b"a".to_vec(), None), (b"b".to_vec(), Some(b"2".to_vec()))]
    );
    map.pop_overlay();
    assert_eq!(root.get(&map, &b"a".to_vec()), Some(b"1".to_vec()));
    map.push_overlay();
    map.mutate(&ms);
    map.combine_down();
    assert_eq!(map.inner.layers.len(), 1);
    assert_eq!(root.get(&map, &b"a".to_vec()), None);
    assert_eq!(root.get(&map, &b"b".to_vec()), Some(b"2".to_vec()));
}

#[test]
fn treemap_layer_prefixes_skip_empty() {
    let mut map = TreeMap::new();
    let root = TreeMapRef::new_root(&map);
    let mut x = root.child(b"x");
    x.set(&mut map, b"k".to_vec(), b"v".to_vec());
    map.mutate(&vec![TreeMutation { prefix: vec![b"y".to_vec()], entries: vec![] }]);
    assert_eq!(map.inner.layers[0].prefixes(), vec![vec![b"x".to_vec()]]);
    assert_eq!(map.top_layer_mutations().len(), 1);
}

#[test]
fn treemap_listeners() {
    let mut map = TreeMap::new();
    let root = TreeMapRef::new_root(&map);
    root.listen(&mut map, 3);
    assert_eq!(map.inner.listeners.listeners_of(&vec![]), vec![3]);
    map.alert(&vec![], &vec![false]);
    assert_eq!(map.inner.listeners.listeners_of(&vec![]), Vec::<u64>::new());
    let c = root.child(b"z").clone();
    assert_eq!(c.prefix, vec![b"z".to_vec()]);
}
