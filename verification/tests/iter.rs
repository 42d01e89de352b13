use aper::iter::StoreIterator;
use aper::prefix_map::PrefixMapValue;
use aper::sorted_map::SortedMap;

fn layer(entries: Vec<(&str, Option<&str>)>) -> SortedMap<Vec<u8>, PrefixMapValue> {
    let mut m = SortedMap::new();
    for (k, v) in entries {
        let value = match v {
            Some(v) => PrefixMapValue::Value(v.as_bytes().to_vec()),
            None => PrefixMapValue::Deleted,
        };
        m.insert(k.as_bytes().to_vec(), value);
    }
    m
}

fn pair(k: &str, v: &str) -> (Vec<u8>, Vec<u8>) {
    (k.as_bytes().to_vec(), v.as_bytes().to_vec())
}

#[test]
fn no_layers() {
    let iter_inner = StoreIterator::new(&Vec::new());
    let d: Vec<(Vec<u8>, Vec<u8>)> = iter_inner.into_vec();
    assert_eq!(d, Vec::new());
}

#[test]
fn multiple_empty_layers() {
    let v1 = SortedMap::new();
    let v2 = SortedMap::new();
    let iter_inner = StoreIterator::new(&vec![v1, v2]);
    let d: Vec<(Vec<u8>, Vec<u8>)> = iter_inner.into_vec();
    assert_eq!(d, Vec::new());
}

#[test]
fn one_nonempty_layer() {
    let v1 = layer(vec![("key1", Some("abc"))]);
    let iter_inner = StoreIterator::new(&vec![v1]);
    let d: Vec<(Vec<u8>, Vec<u8>)> = iter_inner.into_vec();
    assert_eq!(d, vec![pair("key1", "abc")]);
}

#[test]
fn two_nonempty_layers_no_overlap() {
    let v1 = layer(vec![("key1", Some("abc")), ("key5", Some("abc"))]);
    let v2 = layer(vec![("key3", Some("abc"))]);
    let iter_inner = StoreIterator::new(&vec![v1, v2]);
    let d: Vec<(Vec<u8>, Vec<u8>)> = iter_inner.into_vec();
    assert_eq!(d, vec![pair("key1", "abc"), pair("key3", "abc"), pair("key5", "abc"),]);
}

#[test]
fn two_nonempty_layers_overlap() {
    let v1 = layer(vec![("overlapping-key", Some("erased value"))]);
    let v2 = layer(vec![("overlapping-key", Some("intended value"))]);
    let iter_inner = StoreIterator::new(&vec![v1, v2]);
    let d: Vec<(Vec<u8>, Vec<u8>)> = iter_inner.into_vec();
    assert_eq!(d, vec![pair("overlapping-key", "intended value")]);
}

#[test]
fn two_nonempty_layers_deletion() {
    let v1 = layer(vec![("deleted-key", Some("erased value"))]);
    let v2 = layer(vec![("deleted-key", None)]);
    let iter_inner = StoreIterator::new(&vec![v1, v2]);
    let d: Vec<(Vec<u8>, Vec<u8>)> = iter_inner.into_vec();
    assert_eq!(d, vec![]);
}

#[test]
fn undeleted_key() {
    let v1 = layer(vec![("deleted-key", Some("erased value"))]);
    let v2 = layer(vec![("deleted-key", None)]);
    let v3 = layer(vec![("deleted-key", Some("recreated value"))]);
    let iter_inner = StoreIterator::new(&vec![v1, v2, v3]);
    let d: Vec<(Vec<u8>, Vec<u8>)> = iter_inner.into_vec();
    assert_eq!(d, vec![pair("deleted-key", "recreated value")]);
}

#[test]
fn next_yields_in_order_then_none() {
    let v1 = layer(vec![("b", Some("2")), ("a", Some("1"))]);
    let mut it = StoreIterator::new(&vec![v1]);
    assert_eq!(it.next(), Some(pair("a", "1")));
    assert_eq!(it.next(), Some(pair("b", "2")));
    assert_eq!(it.next(), None);
    assert_eq!(it.next(), None);
}
