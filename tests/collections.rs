use orga::collections::Table;
use orga::encoding::EofTerminatedString;
use orga::error::Failure;
use orga::ibc::{PortChannel, PortChannelSequence};
use orga::store::{MapStore, Read, Store};

#[test]
fn tables_lay_out_keys_under_their_prefix() {
    let backing = MapStore::new();

    let mut seqs: Table<PortChannel, EofTerminatedString<u64>, MapStore> =
        Table::create(Store::new(backing).sub(b"nextSequenceSend/"));
    let path = PortChannel::new(b"transfer".to_vec(), b"channel-123".to_vec());
    seqs.insert(&path, &EofTerminatedString(1)).unwrap();
    let backing = seqs.flush().into_inner();

    let mut commitments: Table<PortChannelSequence, EofTerminatedString<Vec<u8>>, MapStore> =
        Table::create(Store::new(backing).sub(b"commitments/"));
    let packet = PortChannelSequence::new(b"transfer".to_vec(), b"channel-123".to_vec(), 1);
    commitments.insert(&packet, &EofTerminatedString(vec![1, 2, 3])).unwrap();
    let backing = commitments.flush().into_inner();

    let mut receipts: Table<PortChannelSequence, (), MapStore> =
        Table::create(Store::new(backing).sub(b"receipts/"));
    receipts.insert(&packet, &()).unwrap();
    let backing = receipts.flush().into_inner();

    assert_eq!(
        backing.range(b"", None),
        vec![
            (b"commitments/ports/transfer/channels/channel-123/sequences/1".to_vec(), vec![1, 2, 3]),
            (b"nextSequenceSend/ports/transfer/channels/channel-123".to_vec(), b"1".to_vec()),
            (b"receipts/ports/transfer/channels/channel-123/sequences/1".to_vec(), vec![]),
        ]
    );
    assert_eq!(backing.get(b"nextSequenceSend/ports/transfer/channels/channel-123").unwrap(), Some(b"1".to_vec()));
}

#[test]
fn table_get_and_remove() {
    let mut t: Table<u64, EofTerminatedString<u64>, MapStore> = Table::create(Store::new(MapStore::new()));
    t.insert(&7, &EofTerminatedString(70)).unwrap();
    assert_eq!(t.get(&7).unwrap().map(|v| v.0), Some(70));
    assert!(t.get(&8).unwrap().is_none());
    t.remove(&7).unwrap();
    assert!(t.get(&7).unwrap().is_none());
    let bad = PortChannel::new(b"a/b".to_vec(), b"c".to_vec());
    let mut u: Table<PortChannel, (), MapStore> = Table::create(Store::new(MapStore::new()));
    assert_eq!(u.insert(&bad, &()), Err(Failure::UnencodableVariant));
}

#[test]
fn table_reports_undecodable_values() {
    let mut raw: Table<u64, EofTerminatedString<Vec<u8>>, MapStore> = Table::create(Store::new(MapStore::new()));
    raw.insert(&1, &EofTerminatedString(b"x".to_vec())).unwrap();
    let store = raw.flush();
    let numbers: Table<u64, EofTerminatedString<u64>, MapStore> = Table::create(store);
    assert!(matches!(numbers.get(&1), Err(Failure::InvalidText)));
}
