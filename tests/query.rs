use orga::error::Failure;
use orga::plugins::FeePlugin;
use orga::query::{query_key, Query};
use orga::store::{MapStore, Write};

#[test]
fn query_routes_without_changes() {
    let v: Vec<Option<u64>> = vec![Some(1), None];
    assert_eq!(v.query((0, ())), Ok(()));
    assert_eq!(v.query((1, ())), Err(Failure::EmptyOption));
    assert_eq!(v.query((2, ())), Err(Failure::IndexOutOfBounds(2)));
    assert_eq!(v, vec![Some(1), None]);
}

#[test]
fn query_keyed_entry() {
    let mut s = MapStore::new();
    s.put(b"k".to_vec(), b"v".to_vec()).unwrap();
    assert_eq!(query_key(&s, b"k"), Ok(b"v".to_vec()));
    assert_eq!(query_key(&s, b"missing"), Err(Failure::NotFound));
}

#[test]
fn fee_plugin_queries_are_free() {
    let plugin: FeePlugin<(), Vec<u32>> = FeePlugin::new(vec![4]);
    assert_eq!(plugin.query((0, ())), Ok(()));
    assert_eq!(plugin.query((3, ())), Err(Failure::IndexOutOfBounds(3)));
}
