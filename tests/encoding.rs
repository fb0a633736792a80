use orga::encoding::{ByteTerminatedString, Codec, EofTerminatedString, FixedString, LengthVec};
use orga::error::Failure;
use orga::state::{Adapter, State};
use orga::store::{NullStore, Store};

type CommaTerminatedU64 = ByteTerminatedString<b',', u64>;

#[test]
fn byte_terminated_string_encode_decode() {
    let value: CommaTerminatedU64 = ByteTerminatedString(1234);

    let mut bytes = value.encode().unwrap();
    assert_eq!(bytes, b"1234,");

    bytes.extend_from_slice(b"567,8,");
    let (decoded, used) = CommaTerminatedU64::decode(&bytes[..]).unwrap();
    assert_eq!(decoded.0, value.0);
    assert_eq!(&bytes[used..], b"567,8,");
}

#[test]
fn byte_terminated_string_state() {
    let value: CommaTerminatedU64 = ByteTerminatedString(1234);

    let mut bytes = vec![];
    value.clone().flush(&mut bytes).unwrap();
    assert_eq!(bytes, b"1234,");

    bytes.extend_from_slice(b"567,8,");
    let (decoded, _) = CommaTerminatedU64::load(Store::new(NullStore), &bytes[..]).unwrap();
    assert_eq!(decoded.0, value.0);
}

#[test]
fn eof_terminated_string_encode_decode() {
    let value: EofTerminatedString<u64> = EofTerminatedString(1234);

    let bytes = value.encode().unwrap();
    assert_eq!(bytes, b"1234");

    let (decoded, _) = EofTerminatedString::<u64>::decode(&bytes[..]).unwrap();
    assert_eq!(decoded.0, value.0);
}

#[test]
fn eof_terminated_string_state() {
    let value: EofTerminatedString<u64> = EofTerminatedString(1234);

    let mut bytes = vec![];
    value.clone().flush(&mut bytes).unwrap();
    assert_eq!(bytes, b"1234");

    let (decoded, _) = EofTerminatedString::<u64>::load(Store::new(NullStore), &bytes[..]).unwrap();
    assert_eq!(decoded.0, value.0);
}

#[test]
fn integers_are_big_endian() {
    assert_eq!(0x0102_0304_0506_0708u64.encode().unwrap(), vec![1, 2, 3, 4, 5, 6, 7, 8]);
    assert_eq!(0x0a0bu16.encode().unwrap(), vec![0x0a, 0x0b]);
    assert_eq!(7u32.encode().unwrap(), vec![0, 0, 0, 7]);
    let (v, n) = u64::decode(&[0, 0, 0, 0, 0, 0, 1, 2, 99]).unwrap();
    assert_eq!((v, n), (258, 8));
    assert_eq!(u64::decode(&[1, 2, 3]).unwrap_err(), Failure::UnexpectedEof);
    assert_eq!(u16::decode(&[1]).unwrap_err(), Failure::UnexpectedEof);
}

#[test]
fn integer_encodings_keep_order() {
    let values = [0u64, 1, 255, 256, 65_535, 1 << 40, u64::MAX - 1, u64::MAX];
    for a in values {
        for b in values {
            let (ea, eb) = (a.encode().unwrap(), b.encode().unwrap());
            assert_eq!(a < b, ea < eb);
        }
    }
}

#[test]
fn terminated_segment_refuses_terminator_inside() {
    let value: ByteTerminatedString<b'/', Vec<u8>> = ByteTerminatedString(b"a/b".to_vec());
    assert_eq!(value.encode().unwrap_err(), Failure::UnencodableVariant);
}

#[test]
fn terminated_segment_without_terminator_takes_everything() {
    let (v, n) = ByteTerminatedString::<b',', Vec<u8>>::decode(b"abc").unwrap();
    assert_eq!(v.0, b"abc".to_vec());
    assert_eq!(n, 3);
}

#[test]
fn decimal_segment_rejects_bad_text() {
    assert_eq!(EofTerminatedString::<u64>::decode(b"12a").unwrap_err(), Failure::InvalidText);
    assert_eq!(EofTerminatedString::<u64>::decode(b"").unwrap_err(), Failure::InvalidText);
    assert_eq!(
        EofTerminatedString::<u64>::decode(b"18446744073709551616").unwrap_err(),
        Failure::InvalidText
    );
    let (v, _) = EofTerminatedString::<u64>::decode(b"18446744073709551615").unwrap();
    assert_eq!(v.0, u64::MAX);
    let (v, _) = EofTerminatedString::<u64>::decode(b"007").unwrap();
    assert_eq!(v.0, 7);
}

#[test]
fn pair_round_trip() {
    let value: (u16, EofTerminatedString<Vec<u8>>) = (513, EofTerminatedString(b"tail".to_vec()));
    let bytes = value.encode().unwrap();
    assert_eq!(bytes, vec![2, 1, b't', b'a', b'i', b'l']);
    let ((a, b), n) = <(u16, EofTerminatedString<Vec<u8>>)>::decode(&bytes).unwrap();
    assert_eq!(a, 513);
    assert_eq!(b.0, b"tail".to_vec());
    assert_eq!(n, 6);
}

#[test]
fn pair_needs_terminated_first() {
    let value: (EofTerminatedString<Vec<u8>>, u16) = (EofTerminatedString(b"x".to_vec()), 1);
    assert_eq!(value.encode().unwrap_err(), Failure::UnencodableVariant);
}

#[test]
fn length_vec_round_trip() {
    let lv: LengthVec<u16, u32> = LengthVec::try_from(vec![1, 2, 3]).unwrap();
    let bytes = lv.encode().unwrap();
    assert_eq!(bytes, vec![0, 3, 0, 0, 0, 1, 0, 0, 0, 2, 0, 0, 0, 3]);
    let mut longer = bytes.clone();
    longer.push(9);
    let (decoded, n) = LengthVec::<u16, u32>::decode(&longer).unwrap();
    assert_eq!(decoded.values(), &vec![1, 2, 3]);
    assert_eq!(n, 14);
}

#[test]
fn length_vec_count_mismatch_and_short_input() {
    let lv: LengthVec<u16, u32> = LengthVec::new(2, vec![1, 2, 3]);
    assert_eq!(lv.encode().unwrap_err(), Failure::UnencodableVariant);
    assert_eq!(
        LengthVec::<u16, u32>::decode(&[0, 2, 0, 0, 0, 1]).unwrap_err(),
        Failure::UnexpectedEof
    );
    let empty: LengthVec<u64, u16> = LengthVec::try_from(vec![]).unwrap();
    assert_eq!(empty.encode().unwrap(), vec![0; 8]);
}

#[test]
fn length_vec_overflow() {
    let values = vec![0u16; 70_000];
    let r: Result<LengthVec<u16, u16>, Failure> = LengthVec::try_from(values);
    assert!(matches!(r, Err(Failure::Overflow)));
}

#[test]
fn fixed_label() {
    let mut out = vec![1];
    FixedString::encode_into(b"ports/", &mut out);
    assert_eq!(out, b"\x01ports/".to_vec());
    assert_eq!(FixedString::decode(b"ports/", b"ports/transfer").unwrap(), 6);
    assert_eq!(FixedString::decode(b"ports/", b"porTs/x").unwrap_err(), Failure::UnexpectedLabel);
    assert_eq!(FixedString::decode(b"ports/", b"por").unwrap_err(), Failure::UnexpectedEof);
}

#[test]
fn flush_then_load_reproduces_bytes() {
    let bytes = vec![0, 0, 0, 0, 0, 0, 4, 210];
    let (v, _) = u64::load(Store::new(NullStore), &bytes).unwrap();
    let mut node = Adapter(v);
    node.attach(Store::new(NullStore)).unwrap();
    let mut out = vec![];
    node.flush(&mut out).unwrap();
    assert_eq!(out, bytes);
    let (again, _) = Adapter::<u64>::load(Store::new(NullStore), &out).unwrap();
    assert_eq!(again.0, 1234);
}
