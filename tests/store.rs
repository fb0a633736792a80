use orga::error::Failure;
use orga::store::{BufStore, Iter, MapStore, NullStore, RWLog, Read, Shared, Store, Write};

fn sample() -> MapStore {
    let mut s = MapStore::new();
    s.put(b"b".to_vec(), b"2".to_vec()).unwrap();
    s.put(b"a".to_vec(), b"1".to_vec()).unwrap();
    s.put(b"d".to_vec(), b"4".to_vec()).unwrap();
    s
}

#[test]
fn map_store_get_put_delete() {
    let mut s = sample();
    assert_eq!(s.get(b"a").unwrap(), Some(b"1".to_vec()));
    assert_eq!(s.get(b"c").unwrap(), None);
    s.put(b"a".to_vec(), b"9".to_vec()).unwrap();
    assert_eq!(s.get(b"a").unwrap(), Some(b"9".to_vec()));
    s.delete(b"a").unwrap();
    assert_eq!(s.get(b"a").unwrap(), None);
    s.delete(b"zzz").unwrap();
    assert_eq!(s.get(b"b").unwrap(), Some(b"2".to_vec()));
}

#[test]
fn map_store_next_and_prev() {
    let s = sample();
    assert_eq!(s.get_next(b"a").unwrap(), Some((b"b".to_vec(), b"2".to_vec())));
    assert_eq!(s.get_next(b"b").unwrap(), Some((b"d".to_vec(), b"4".to_vec())));
    assert_eq!(s.get_next(b"").unwrap(), Some((b"a".to_vec(), b"1".to_vec())));
    assert_eq!(s.get_next(b"d").unwrap(), None);
    assert_eq!(s.get_prev(b"d").unwrap(), Some((b"b".to_vec(), b"2".to_vec())));
    assert_eq!(s.get_prev(b"c").unwrap(), Some((b"b".to_vec(), b"2".to_vec())));
    assert_eq!(s.get_prev(b"a").unwrap(), None);
    assert_eq!(s.get_prev(b"\xff").unwrap(), Some((b"d".to_vec(), b"4".to_vec())));
}

#[test]
fn map_store_range_is_ordered() {
    let s = sample();
    let all = s.range(b"", None);
    let keys: Vec<Vec<u8>> = all.into_iter().map(|(k, _)| k).collect();
    assert_eq!(keys, vec![b"a".to_vec(), b"b".to_vec(), b"d".to_vec()]);
    let some = s.range(b"b", Some(b"d"));
    assert_eq!(some, vec![(b"b".to_vec(), b"2".to_vec())]);
    assert!(s.range(b"d", Some(b"a")).is_empty());
}

#[test]
fn null_store_is_empty() {
    let mut s = NullStore;
    s.put(b"a".to_vec(), b"1".to_vec()).unwrap();
    s.delete(b"a").unwrap();
    assert_eq!(s.get(b"a").unwrap(), None);
    assert_eq!(s.get_next(b"").unwrap(), None);
    assert_eq!(s.get_prev(b"\xff").unwrap(), None);
}

#[test]
fn overlay_discard_leaves_store_untouched() {
    let mut buf = BufStore::new(MapStore::new());
    buf.put(b"A".to_vec(), b"1".to_vec()).unwrap();
    buf.put(b"B".to_vec(), b"2".to_vec()).unwrap();
    assert_eq!(buf.get(b"A").unwrap(), Some(b"1".to_vec()));
    let under = buf.discard();
    assert_eq!(under.get(b"A").unwrap(), None);
    assert_eq!(under.get(b"B").unwrap(), None);
}

#[test]
fn overlay_commit_applies_all_writes() {
    let mut buf = BufStore::new(MapStore::new());
    buf.put(b"A".to_vec(), b"1".to_vec()).unwrap();
    buf.put(b"B".to_vec(), b"2".to_vec()).unwrap();
    let under = buf.commit().unwrap();
    assert_eq!(under.get(b"A").unwrap(), Some(b"1".to_vec()));
    assert_eq!(under.get(b"B").unwrap(), Some(b"2".to_vec()));
}

#[test]
fn overlay_reads_mix_buffer_and_store() {
    let mut buf = BufStore::new(sample());
    buf.delete(b"b").unwrap();
    buf.put(b"c".to_vec(), b"3".to_vec()).unwrap();
    assert_eq!(buf.get(b"b").unwrap(), None);
    assert_eq!(buf.get(b"d").unwrap(), Some(b"4".to_vec()));
    assert_eq!(buf.get_next(b"a").unwrap(), Some((b"c".to_vec(), b"3".to_vec())));
    assert_eq!(buf.get_next(b"c").unwrap(), Some((b"d".to_vec(), b"4".to_vec())));
    assert_eq!(buf.get_prev(b"d").unwrap(), Some((b"c".to_vec(), b"3".to_vec())));
    assert_eq!(buf.get_prev(b"c").unwrap(), Some((b"a".to_vec(), b"1".to_vec())));
    let under = buf.commit().unwrap();
    assert_eq!(under.get(b"b").unwrap(), None);
    assert_eq!(under.get(b"c").unwrap(), Some(b"3".to_vec()));
}

#[test]
fn write_log_records_writes() {
    let mut log = RWLog::new(MapStore::new());
    log.put(b"k".to_vec(), b"v".to_vec()).unwrap();
    log.delete(b"k").unwrap();
    assert_eq!(log.get(b"k").unwrap(), None);
    let (_, writes) = log.into_parts();
    assert_eq!(writes, vec![(b"k".to_vec(), Some(b"v".to_vec())), (b"k".to_vec(), None)]);
}

#[test]
fn prefixed_store_scopes_keys() {
    let store = Store::new(sample()).sub(b"x/");
    let mut store = store;
    store.put(b"one".to_vec(), b"1".to_vec()).unwrap();
    store.put(b"two".to_vec(), b"2".to_vec()).unwrap();
    assert_eq!(store.get(b"one").unwrap(), Some(b"1".to_vec()));
    assert_eq!(store.get(b"a").unwrap(), None);
    assert_eq!(store.get_next(b"").unwrap(), Some((b"one".to_vec(), b"1".to_vec())));
    assert_eq!(store.get_next(b"two").unwrap(), None);
    assert_eq!(store.get_prev(b"one").unwrap(), None);
    let backing = store.into_inner();
    assert_eq!(backing.get(b"x/two").unwrap(), Some(b"2".to_vec()));
    assert_eq!(backing.get(b"a").unwrap(), Some(b"1".to_vec()));
}

#[test]
fn missing_key_is_not_an_error() {
    let s = MapStore::new();
    assert!(matches!(s.get(b"nothing"), Ok(None)));
    let _unused: Option<Failure> = None;
}

#[test]
fn iterator_walks_range_in_order() {
    let s = sample();
    let mut it = Iter::new(&s, b"a", Some(b"z"));
    assert_eq!(it.next(), Some((b"a".to_vec(), b"1".to_vec())));
    assert_eq!(it.next(), Some((b"b".to_vec(), b"2".to_vec())));
    assert_eq!(it.next(), Some((b"d".to_vec(), b"4".to_vec())));
    assert_eq!(it.next(), None);
    assert_eq!(it.next(), None);
}

#[test]
fn shared_handles_read_the_same_store() {
    let a = Shared::new(sample());
    let b = a.share();
    assert_eq!(a.get(b"a").unwrap(), Some(b"1".to_vec()));
    assert_eq!(b.get(b"a").unwrap(), Some(b"1".to_vec()));
    assert_eq!(b.get_next(b"b").unwrap(), Some((b"d".to_vec(), b"4".to_vec())));
    assert_eq!(a.get_prev(b"b").unwrap(), Some((b"a".to_vec(), b"1".to_vec())));
}
