use orga::encoding::Codec;
use orga::error::Failure;
use orga::plugins::{
    check_transfer_sender, disable_fee, signer, Context, FeePlugin, IbcAdapter, InnerAdapter, Paid, Signer,
    MIN_FEE,
};
use orga::state::WrapperStore;
use orga::store::{MapStore, Read, Store, Write};
use orga::validator::{Validator, ValidatorInfo};

fn ctx(amount: u64) -> Context {
    Context { paid: Some(Paid { amount, running_payer: false, fee_disabled: false }), signer: None }
}

#[test]
fn fee_is_taken_before_the_call() {
    let mut plugin: FeePlugin<(), Vec<u64>> = FeePlugin::new(vec![1, 2]);
    let mut c = ctx(15_000);
    assert_eq!(plugin.call(&mut c, (0, ())), Ok(()));
    assert_eq!(c.paid.unwrap().amount, 15_000 - MIN_FEE);
    let mut poor = ctx(9_999);
    assert_eq!(plugin.call(&mut poor, (0, ())), Err(Failure::InsufficientFunds));
    assert_eq!(poor.paid.unwrap().amount, 9_999);
    let mut none = Context { paid: None, signer: None };
    assert_eq!(plugin.call(&mut none, (0, ())), Err(Failure::MissingContext));
}

#[test]
fn fee_can_be_waived() {
    let mut plugin: FeePlugin<(), Vec<u64>> = FeePlugin::new(vec![1]);
    let mut c = ctx(0);
    disable_fee(&mut c);
    assert!(c.paid.unwrap().fee_disabled);
    assert_eq!(plugin.call(&mut c, (5, ())), Err(Failure::IndexOutOfBounds(5)));
    assert_eq!(c.paid.unwrap().amount, 0);
    let mut empty = Context { paid: None, signer: None };
    disable_fee(&mut empty);
    assert!(empty.paid.is_none());
}

#[test]
fn paid_take() {
    let mut p = Paid { amount: 10, running_payer: false, fee_disabled: false };
    assert_eq!(p.take(4), Ok(4));
    assert_eq!(p.amount, 6);
    assert_eq!(p.take(7), Err(Failure::InsufficientFunds));
    assert_eq!(p.amount, 6);
}

#[test]
fn adapters_keep_parent() {
    let inner: InnerAdapter<u64, String> = InnerAdapter::new("client".to_string());
    assert_eq!(inner.parent, "client");
    let ibc: IbcAdapter<u64, u8> = IbcAdapter::new(3);
    assert_eq!(ibc.parent, 3);
    assert_eq!(inner.clone().parent, "client");
    assert_eq!(ibc.clone().parent, 3);
}

#[test]
fn wrapper_store_exposes_raw_store() {
    let mut w = WrapperStore::create(Store::new(MapStore::new()), ()).unwrap();
    w.store_mut().put(vec![0], vec![1]).unwrap();
    assert_eq!(w.store().get(&[0]).unwrap(), Some(vec![1]));
    assert_eq!(w.flush(), Ok(()));
}

fn validator(jailed: bool) -> Validator {
    Validator {
        jailed,
        address: [1; 20],
        commission: 50_000,
        delegators: vec![([2; 20], 100), ([3; 20], 50)],
        info: ValidatorInfo::from(b"hi".to_vec()),
        in_active_set: false,
    }
}

#[test]
fn validator_stake() {
    let mut v = validator(false);
    assert_eq!(v.get([3; 20]), Ok(50));
    assert_eq!(v.get([9; 20]), Ok(0));
    assert_eq!(v.staked(), Ok(150));
    assert!(!v.in_active_set);
    assert_eq!(v.balance(), Ok(0));
    assert_eq!(v.slashable_balance(), Ok(150));
    assert_eq!(v.delegator_keys(), vec![[2; 20], [3; 20]]);
    let mut j = validator(true);
    assert_eq!(j.staked(), Ok(0));
    let q = v.query_info().unwrap();
    assert_eq!(q.amount_staked, 150);
    assert_eq!(q.info.bytes, b"hi".to_vec());
}

#[test]
fn validator_stake_overflow() {
    let mut v = validator(false);
    v.delegators = vec![([2; 20], u64::MAX), ([3; 20], 1)];
    assert_eq!(v.staked(), Err(Failure::Overflow));
    assert!(v.query_info().is_err());
}

#[test]
fn validator_info_encoding() {
    let info = ValidatorInfo::from(vec![7, 8, 9]);
    let bytes = info.encode().unwrap();
    assert_eq!(bytes, vec![0, 3, 7, 8, 9]);
    assert_eq!(info.encoding_length(), 5);
    let (back, n) = ValidatorInfo::decode(&[0, 2, 5, 6, 7]).unwrap();
    assert_eq!((back.bytes, n), (vec![5, 6], 4));
    assert_eq!(ValidatorInfo::decode(&[0, 4, 1]).unwrap_err(), Failure::UnexpectedEof);
    let big = ValidatorInfo::from(vec![0; 70_000]);
    assert_eq!(big.encode().unwrap_err(), Failure::Overflow);
}

#[test]
fn signer_lookup() {
    let none = Context { paid: None, signer: None };
    assert_eq!(signer(&none), Err(Failure::MissingContext));
    let unsigned = Context { paid: None, signer: Some(Signer { signer: None }) };
    assert_eq!(signer(&unsigned), Err(Failure::Unsigned));
    let signed = Context { paid: None, signer: Some(Signer { signer: Some(b"alice".to_vec()) }) };
    assert_eq!(signer(&signed), Ok(b"alice".to_vec()));
    assert_eq!(check_transfer_sender(&signed, b"alice"), Ok(()));
    assert_eq!(check_transfer_sender(&signed, b"bob"), Err(Failure::WrongSigner));
    assert_eq!(check_transfer_sender(&unsigned, b"alice"), Err(Failure::Unsigned));
}
