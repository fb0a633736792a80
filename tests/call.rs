use orga::call::{
    call_item, maybe_call, Call, CallBuilder, FieldCall, Item, MethodCall, Tuple2Call, Tuple3Call, Tuple4Call,
};
use orga::encoding::{Codec, EofTerminatedString};
use orga::error::Failure;

#[test]
fn sequence_index_out_of_bounds() {
    let mut v: Vec<u64> = vec![1, 2, 3];
    let r = v.call((5, ()));
    assert_eq!(r, Err(Failure::IndexOutOfBounds(5)));
    assert_eq!(v, vec![1, 2, 3]);
    assert_eq!(v.call((3, ())), Err(Failure::IndexOutOfBounds(3)));
    assert_eq!(v.call((2, ())), Ok(()));
}

#[test]
fn array_index_out_of_bounds() {
    let mut a: [u32; 2] = [7, 8];
    assert_eq!(a.call((2, ())), Err(Failure::IndexOutOfBounds(2)));
    assert_eq!(a.call((1, ())), Ok(()));
    assert_eq!(a, [7, 8]);
}

#[test]
fn optional_and_fallible_wrappers() {
    let mut none: Option<u64> = None;
    assert_eq!(none.call(()), Err(Failure::EmptyOption));
    let mut some: Option<u64> = Some(1);
    assert_eq!(some.call(()), Ok(()));
    let mut failed: Result<u64, String> = Err("broken".to_string());
    assert_eq!(failed.call(()), Err(Failure::Held("broken".to_string())));
    let mut fine: Result<u64, String> = Ok(3);
    assert_eq!(fine.call(()), Ok(()));
}

#[derive(Debug, PartialEq)]
struct Counter {
    count: u64,
}

impl FieldCall for Counter {
    type FieldCall = ();

    fn field_call_spec(_before: Self, _c: (), _after: Self, _r: Result<(), Failure>) -> bool {
        true
    }

    fn field_call(&mut self, _c: ()) -> Result<(), Failure> {
        Err(Failure::Held("no fields".to_string()))
    }
}

impl MethodCall for Counter {
    type MethodCall = u64;

    fn method_call_spec(_before: Self, _c: u64, _after: Self, _r: Result<(), Failure>) -> bool {
        true
    }

    fn method_call(&mut self, by: u64) -> Result<(), Failure> {
        self.count = self.count.checked_add(by).ok_or(Failure::Overflow)?;
        Ok(())
    }
}

#[test]
fn item_routes_field_and_method() {
    let mut c = Counter { count: 1 };
    assert_eq!(call_item(&mut c, Item::Method(4)), Ok(()));
    assert_eq!(c.count, 5);
    assert_eq!(call_item(&mut c, Item::Field(())), Err(Failure::Held("no fields".to_string())));
    assert_eq!(c.count, 5);
}

#[test]
fn tuple_dispatch_touches_one_member() {
    let mut pair: (Vec<u64>, Option<u64>) = (vec![1], None);
    assert_eq!(pair.call(Tuple2Call::Field1(())), Err(Failure::EmptyOption));
    assert_eq!(pair.call(Tuple2Call::Field0((0, ()))), Ok(()));
    let mut triple: (u8, Vec<u8>, u16) = (1, vec![], 3);
    assert_eq!(triple.call(Tuple3Call::Field1((0, ()))), Err(Failure::IndexOutOfBounds(0)));
}

#[test]
fn item_encoding_partitions_leading_byte() {
    let field: Item<u16, u16> = Item::Field(0x0102);
    let method: Item<u16, u16> = Item::Method(0x0102);
    let fb = field.encode().unwrap();
    let mb = method.encode().unwrap();
    assert_eq!(fb, vec![0x01, 0x02]);
    assert_eq!(mb, vec![0x41, 0x02]);
    assert!(matches!(Item::<u16, u16>::decode(&fb).unwrap(), (Item::Field(0x0102), 2)));
    assert!(matches!(Item::<u16, u16>::decode(&mb).unwrap(), (Item::Method(0x0102), 2)));
}

#[test]
fn item_refuses_colliding_leading_byte() {
    let method: Item<u16, u16> = Item::Method(0x4000);
    assert_eq!(method.encode().unwrap_err(), Failure::UnencodableVariant);
    let field: Item<u16, u16> = Item::Field(0x4000);
    assert_eq!(field.encode().unwrap_err(), Failure::UnencodableVariant);
    let empty: Item<(), u16> = Item::Field(());
    assert_eq!(empty.encode().unwrap_err(), Failure::UnencodableVariant);
    assert_eq!(Item::<u16, u16>::decode(&[]).unwrap_err(), Failure::UnexpectedEof);
}

#[test]
fn maybe_call_decodes_then_calls() {
    let v: Vec<u64> = vec![1, 2];
    let bytes = (1u32, ()).encode().unwrap();
    assert_eq!(maybe_call(v.clone(), bytes), Ok(()));
    let far = (9u32, ()).encode().unwrap();
    assert_eq!(maybe_call(v.clone(), far), Err(Failure::IndexOutOfBounds(9)));
    assert_eq!(maybe_call(v, vec![0, 1]), Err(Failure::UnexpectedEof));
}

#[test]
fn text_instruction_round_trip() {
    let c: EofTerminatedString<Vec<u8>> = EofTerminatedString(b"go".to_vec());
    assert_eq!(c.encode().unwrap(), b"go".to_vec());
}

#[test]
fn call_builder_constructs() {
    let _b: CallBuilder<u64> = CallBuilder::new();
    let boxed = Box::new(5u64);
    let _m: CallBuilder<u64> = CallBuilder::make(boxed);
}

#[test]
fn record_instruction_wire_format() {
    let c: Tuple2Call<Vec<u64>, Option<u64>> = Tuple2Call::Field0((1, ()));
    let bytes = c.encode().unwrap();
    assert_eq!(bytes, vec![0, 0, 0, 0, 1]);
    let pair: (Vec<u64>, Option<u64>) = (vec![5, 6], None);
    assert_eq!(maybe_call(pair, bytes), Ok(()));
    let pair: (Vec<u64>, Option<u64>) = (vec![5, 6], None);
    assert_eq!(maybe_call(pair, vec![1]), Err(Failure::EmptyOption));
    let pair: (Vec<u64>, Option<u64>) = (vec![5, 6], None);
    assert_eq!(maybe_call(pair, vec![2]), Err(Failure::UnexpectedByte(2)));
    let quad: Tuple4Call<u8, u8, u8, Vec<u8>> = Tuple4Call::Field3((7, ()));
    assert_eq!(quad.encode().unwrap(), vec![3, 0, 0, 0, 7]);
    let (back, n) = Tuple3Call::<u8, u16, u32>::decode(&[2, 9]).unwrap();
    assert!(matches!(back, Tuple3Call::Field2(())));
    assert_eq!(n, 1);
}
