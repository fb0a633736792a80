use orga::encoding::{Codec, EofTerminatedString};
use orga::error::Failure;
use orga::ibc::{BinaryHeight, PortChannel, PortChannelSequence, Timestamp};
use orga::state::{flush_versioned, load_versioned, State};
use orga::store::{NullStore, Store};

fn key(port: &[u8], channel: &[u8]) -> Vec<u8> {
    PortChannel::new(port.to_vec(), channel.to_vec()).encode().unwrap()
}

#[test]
fn channel_key_layout() {
    assert_eq!(key(b"transfer", b"channel-123"), b"ports/transfer/channels/channel-123".to_vec());
    let seq = PortChannel::new(b"transfer".to_vec(), b"channel-123".to_vec()).with_sequence(1);
    assert_eq!(seq.encode().unwrap(), b"ports/transfer/channels/channel-123/sequences/1".to_vec());
}

#[test]
fn channel_keys_order_by_channel() {
    let ids: [&[u8]; 4] = [b"channel-1", b"channel-10", b"channel-2", b"a"];
    for a in ids {
        for b in ids {
            assert_eq!(key(b"transfer", a) < key(b"transfer", b), a < b);
        }
    }
}

#[test]
fn channel_key_round_trip() {
    let bytes = b"ports/transfer/channels/channel-7".to_vec();
    let (pc, n) = PortChannel::decode(&bytes).unwrap();
    assert_eq!(n, bytes.len());
    assert_eq!(pc.port_id(), b"transfer".to_vec());
    assert_eq!(pc.channel_id(), b"channel-7".to_vec());
    assert_eq!(PortChannel::decode(b"ports/transfer/channelz/x").unwrap_err(), Failure::UnexpectedLabel);
    assert_eq!(PortChannel::decode(b"port").unwrap_err(), Failure::UnexpectedEof);
    let bad = PortChannel::new(b"a/b".to_vec(), b"c".to_vec());
    assert_eq!(bad.encode().unwrap_err(), Failure::UnencodableVariant);
}

#[test]
fn packet_key_round_trip() {
    let bytes = b"ports/transfer/channels/channel-7/sequences/42".to_vec();
    let (k, n) = PortChannelSequence::decode(&bytes).unwrap();
    assert_eq!(n, bytes.len());
    assert_eq!(k.port_id(), b"transfer".to_vec());
    assert_eq!(k.channel_id(), b"channel-7".to_vec());
    assert_eq!(k.sequence(), 42);
    assert_eq!(k.encode().unwrap(), bytes);
    assert_eq!(
        PortChannelSequence::decode(b"ports/transfer/channels/channel-7/sequences/x").unwrap_err(),
        Failure::InvalidText
    );
}

#[test]
fn timestamp_migration_from_version_one() {
    let direct = Timestamp { nanos: 1_000_000_007 };
    let mut stored = vec![];
    flush_versioned(1, direct, &mut stored).unwrap();
    assert_eq!(stored, vec![1, 0, 0, 0, 0, 0x3b, 0x9a, 0xca, 0x07]);
    let (migrated, n) = Timestamp::migrate(Store::new(NullStore), &stored).unwrap();
    assert_eq!(n, 9);
    assert_eq!(migrated, direct);
    let (mut a, mut b) = (vec![], vec![]);
    migrated.flush(&mut a).unwrap();
    direct.flush(&mut b).unwrap();
    assert_eq!(a, b);
}

#[test]
fn timestamp_migration_rejects_other_versions() {
    assert_eq!(
        Timestamp::migrate(Store::new(NullStore), &[2, 0, 0, 0, 0, 0, 0, 0, 1]).unwrap_err(),
        Failure::InvalidVersion(2)
    );
    assert_eq!(Timestamp::migrate(Store::new(NullStore), &[]).unwrap_err(), Failure::UnexpectedEof);
    assert_eq!(Timestamp::migrate(Store::new(NullStore), &[1, 0]).unwrap_err(), Failure::UnexpectedEof);
    let r: Result<(BinaryHeight, usize), Failure> = load_versioned(0, Store::new(NullStore), &[3]);
    assert_eq!(r.unwrap_err(), Failure::InvalidVersion(3));
}

#[test]
fn binary_height_encoding() {
    let h = BinaryHeight { epoch: 0, height: 123 };
    let bytes = h.encode().unwrap();
    assert_eq!(bytes, vec![0, 0, 0, 0, 0, 0, 0, 0, 0, 0, 0, 0, 0, 0, 0, 123]);
    let (back, n) = BinaryHeight::decode(&bytes).unwrap();
    assert_eq!((back, n), (h, 16));
}

#[test]
fn epoch_height_text() {
    let h = BinaryHeight { epoch: 0, height: 100 };
    assert_eq!(h.to_epoch_height().0, b"0-100".to_vec());
    let t: EofTerminatedString<Vec<u8>> = EofTerminatedString(b"4-2000".to_vec());
    assert_eq!(BinaryHeight::from_epoch_height(&t).unwrap(), BinaryHeight { epoch: 4, height: 2000 });
    let zero: EofTerminatedString<Vec<u8>> = EofTerminatedString(b"1-0".to_vec());
    assert_eq!(BinaryHeight::from_epoch_height(&zero).unwrap_err(), Failure::InvalidText);
    let no_dash: EofTerminatedString<Vec<u8>> = EofTerminatedString(b"100".to_vec());
    assert_eq!(BinaryHeight::from_epoch_height(&no_dash).unwrap_err(), Failure::InvalidText);
    let junk: EofTerminatedString<Vec<u8>> = EofTerminatedString(b"x-1".to_vec());
    assert_eq!(BinaryHeight::from_epoch_height(&junk).unwrap_err(), Failure::InvalidText);
}
