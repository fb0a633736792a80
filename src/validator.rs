//! A validator's stake: the delegations to it and the information it
//! publishes.
use vstd::prelude::*;
use crate::encoding::Codec;
use crate::error::Failure;
use crate::ints::{be_bytes, be_value};
use crate::state::State;
use crate::text::copy_bytes;

verus! {

/// An account address.
pub type Address = [u8; 20];

/// Free-form bytes a validator publishes about itself, stored behind a
/// two-byte length.
#[derive(Clone, Debug)]
pub struct ValidatorInfo {
    pub bytes: Vec<u8>,
}

impl View for ValidatorInfo {
    type V = Seq<u8>;

    open spec fn view(&self) -> Seq<u8> {
        self.bytes@
    }
}

impl ValidatorInfo {
    pub fn from(bytes: Vec<u8>) -> (r: ValidatorInfo)
        ensures
            r@ == bytes@,
    {
        ValidatorInfo { bytes }
    }

    pub fn into_bytes(self) -> (r: Vec<u8>)
        ensures
            r@ == self@,
    {
        self.bytes
    }

    /// The number of bytes the encoding takes.
    pub fn encoding_length(&self) -> (r: usize)
        requires
            self@.len() + 2 <= usize::MAX,
        ensures
            r == self@.len() + 2,
    {
        self.bytes.len() + 2
    }
}

/// The length, then the bytes. Information longer than a two-byte length can
/// count has no encoding.
impl Codec for ValidatorInfo {
    open spec fn encodable(v: Seq<u8>) -> bool {
        v.len() <= u16::MAX
    }

    open spec fn encoding(v: Seq<u8>) -> Seq<u8> {
        be_bytes(v.len(), 2) + v
    }

    open spec fn parse(bytes: Seq<u8>) -> Option<(Seq<u8>, nat)> {
        if bytes.len() >= 2 && bytes.len() >= 2 + be_value(bytes.take(2)) {
            Some((bytes.subrange(2, 2 + be_value(bytes.take(2)) as int), 2 + be_value(bytes.take(2))))
        } else {
            None
        }
    }

    open spec fn terminated() -> bool {
        true
    }

    fn is_terminated() -> (r: bool) {
        true
    }

    fn encode(&self) -> (r: Result<Vec<u8>, Failure>) {
        if self.bytes.len() > u16::MAX as usize {
            return Err(Failure::Overflow);
        }
        let mut out = crate::ints::encode_u16(self.bytes.len() as u16);
        let mut tail = copy_bytes(self.bytes.as_slice());
        out.append(&mut tail);
        Ok(out)
    }

    fn decode(bytes: &[u8]) -> (r: Result<(Self, usize), Failure>) {
        let len = crate::ints::decode_u16(bytes)? as usize;
        if bytes.len() - 2 < len {
            return Err(Failure::UnexpectedEof);
        }
        let body = copy_bytes(&bytes[2..2 + len]);
        assert(body@ =~= bytes@.subrange(2, 2 + len));
        Ok((ValidatorInfo { bytes: body }, 2 + len))
    }

    proof fn lemma_round_trip(v: Seq<u8>, rest: Seq<u8>) {
        let all = be_bytes(v.len(), 2) + v + rest;
        crate::ints::lemma_be_bytes_len(v.len(), 2);
        assert(all.take(2) =~= be_bytes(v.len(), 2));
        assert(crate::ints::pow256(2) == 65536) by {
            reveal_with_fuel(crate::ints::pow256, 3);
        }
        crate::ints::lemma_be_value_of_bytes(v.len(), 2);
        assert(all.subrange(2, 2 + v.len() as int) =~= v);
    }
}

impl State for ValidatorInfo {
}

/// What a query about a validator answers.
#[derive(Clone, Debug)]
pub struct ValidatorQueryInfo {
    pub jailed: bool,
    pub address: Address,
    pub commission: u64,
    pub in_active_set: bool,
    pub info: ValidatorInfo,
    pub amount_staked: u64,
}

/// The sum of the stakes of a list of delegations.
pub open spec fn total_stake(d: Seq<(Address, u64)>) -> nat
    decreases d.len(),
{
    if d.len() == 0 {
        0
    } else {
        total_stake(d.drop_last()) + d.last().1 as nat
    }
}

/// Byte-wise equality of two addresses.
pub fn same_address(a: &Address, b: &Address) -> (r: bool)
    ensures
        r == (a@ == b@),
{
    let mut i: usize = 0;
    while i < 20
        invariant
            i <= 20,
            forall|j: int| 0 <= j < i ==> a@[j] == b@[j],
        decreases 20 - i,
    {
        if a[i] != b[i] {
            return false;
        }
        i = i + 1;
    }
    assert(a@ =~= b@);
    true
}

/// A validator and the stake delegated to it.
pub struct Validator {
    pub jailed: bool,
    pub address: Address,
    /// The validator's cut of rewards, in millionths.
    pub commission: u64,
    pub delegators: Vec<(Address, u64)>,
    pub info: ValidatorInfo,
    pub in_active_set: bool,
}

impl Validator {
    /// The stake that `address` has delegated to this validator; 0 where it
    /// has delegated nothing.
    pub fn get(&self, address: Address) -> (r: Result<u64, Failure>)
        ensures
            r is Ok,
            (exists|i: int| 0 <= i < self.delegators@.len() && #[trigger] self.delegators@[i].0@ == address@)
                ==> exists|i: int|
                0 <= i < self.delegators@.len() && #[trigger] self.delegators@[i].0@ == address@
                    && r == Ok::<u64, Failure>(self.delegators@[i].1),
            (forall|i: int| 0 <= i < self.delegators@.len() ==> #[trigger] self.delegators@[i].0@ != address@)
                ==> r == Ok::<u64, Failure>(0),
    {
        let mut i: usize = 0;
        while i < self.delegators.len()
            invariant
                i <= self.delegators@.len(),
                forall|j: int| 0 <= j < i ==> #[trigger] self.delegators@[j].0@ != address@,
            decreases self.delegators.len() - i,
        {
            if same_address(&self.delegators[i].0, &address) {
                return Ok(self.delegators[i].1);
            }
            i = i + 1;
        }
        Ok(0)
    }

    /// The total stake delegated, whatever the validator's standing; fails
    /// where the sum overflows.
    pub fn slashable_balance(&mut self) -> (r: Result<u64, Failure>)
        ensures
            *final(self) == *old(self),
            total_stake(old(self).delegators@) <= u64::MAX ==> r == Ok::<u64, Failure>(
                total_stake(old(self).delegators@) as u64,
            ),
            total_stake(old(self).delegators@) > u64::MAX ==> r == Err::<u64, Failure>(Failure::Overflow),
    {
        self.sum_stake()
    }

    fn sum_stake(&self) -> (r: Result<u64, Failure>)
        ensures
            total_stake(self.delegators@) <= u64::MAX ==> r == Ok::<u64, Failure>(
                total_stake(self.delegators@) as u64,
            ),
            total_stake(self.delegators@) > u64::MAX ==> r == Err::<u64, Failure>(Failure::Overflow),
    {
        let mut sum: u64 = 0;
        let mut i: usize = 0;
        let ghost d = self.delegators@;
        assert(d.take(0) =~= seq![]);
        while i < self.delegators.len()
            invariant
                d == self.delegators@,
                i <= d.len(),
                sum as nat == total_stake(d.take(i as int)),
            decreases self.delegators.len() - i,
        {
            assert(d.take(i + 1).drop_last() =~= d.take(i as int));
            let stake = self.delegators[i].1;
            if sum > u64::MAX - stake {
                proof {
                    lemma_total_stake_prefix(d, i + 1);
                }
                return Err(Failure::Overflow);
            }
            sum = sum + stake;
            i = i + 1;
        }
        assert(d.take(i as int) =~= d);
        Ok(sum)
    }

    /// The stake that counts toward voting power: nothing while jailed,
    /// otherwise all that is delegated, as if the validator were in the
    /// active set. The validator is left as it was.
    pub fn staked(&mut self) -> (r: Result<u64, Failure>)
        ensures
            *final(self) == *old(self),
            old(self).jailed ==> r == Ok::<u64, Failure>(0),
            !old(self).jailed && total_stake(old(self).delegators@) <= u64::MAX ==> r == Ok::<u64, Failure>(
                total_stake(old(self).delegators@) as u64,
            ),
            !old(self).jailed && total_stake(old(self).delegators@) > u64::MAX ==> r == Err::<u64, Failure>(
                Failure::Overflow,
            ),
    {
        let in_active_set_before = self.in_active_set;
        self.in_active_set = true;
        let res = self.balance();
        self.in_active_set = in_active_set_before;
        res
    }

    /// The stake that counts toward voting power right now: nothing while
    /// jailed or out of the active set.
    pub fn balance(&self) -> (r: Result<u64, Failure>)
        ensures
            self.jailed || !self.in_active_set ==> r == Ok::<u64, Failure>(0),
            !(self.jailed || !self.in_active_set) ==> r == self.sum_stake_spec(),
    {
        if self.jailed || !self.in_active_set {
            Ok(0)
        } else {
            self.sum_stake()
        }
    }

    pub open spec fn sum_stake_spec(&self) -> Result<u64, Failure> {
        if total_stake(self.delegators@) <= u64::MAX {
            Ok(total_stake(self.delegators@) as u64)
        } else {
            Err(Failure::Overflow)
        }
    }

    /// The addresses of the delegators, in the order they are held.
    pub fn delegator_keys(&self) -> (r: Vec<Address>)
        ensures
            r@.len() == self.delegators@.len(),
            forall|i: int| 0 <= i < r@.len() ==> #[trigger] r@[i] == self.delegators@[i].0,
    {
        let mut keys: Vec<Address> = Vec::new();
        let mut i: usize = 0;
        while i < self.delegators.len()
            invariant
                i <= self.delegators@.len(),
                keys@.len() == i,
                forall|j: int| 0 <= j < i ==> #[trigger] keys@[j] == self.delegators@[j].0,
            decreases self.delegators.len() - i,
        {
            keys.push(self.delegators[i].0);
            i = i + 1;
        }
        keys
    }

    /// The validator's public record, with the total it has been delegated.
    pub fn query_info(&self) -> (r: Result<ValidatorQueryInfo, Failure>)
        ensures
            total_stake(self.delegators@) > u64::MAX ==> r == Err::<ValidatorQueryInfo, Failure>(Failure::Overflow),
            total_stake(self.delegators@) <= u64::MAX ==> r is Ok && {
                let q = r->Ok_0;
                &&& q.jailed == self.jailed
                &&& q.address == self.address
                &&& q.commission == self.commission
                &&& q.in_active_set == self.in_active_set
                &&& q.info@ == self.info@
                &&& q.amount_staked == total_stake(self.delegators@)
            },
    {
        let amount_staked = self.sum_stake()?;
        Ok(ValidatorQueryInfo {
            jailed: self.jailed,
            address: self.address,
            commission: self.commission,
            in_active_set: self.in_active_set,
            info: ValidatorInfo { bytes: copy_bytes(self.info.bytes.as_slice()) },
            amount_staked,
        })
    }
}

proof fn lemma_total_stake_prefix(d: Seq<(Address, u64)>, k: int)
    requires
        0 <= k <= d.len(),
    ensures
        total_stake(d.take(k)) <= total_stake(d),
    decreases d.len(),
{
    if k < d.len() {
        assert(d.drop_last().take(k) =~= d.take(k));
        lemma_total_stake_prefix(d.drop_last(), k);
    } else {
        assert(d.take(k) =~= d);
    }
}

/// Decoding published information and writing it back gives exactly the
/// bytes read.
pub proof fn lemma_validator_info_reencode(bytes: Seq<u8>)
    requires
        ValidatorInfo::parse(bytes) is Some,
    ensures
        ({
            let (v, n) = ValidatorInfo::parse(bytes)->Some_0;
            ValidatorInfo::encodable(v) && ValidatorInfo::encoding(v) == bytes.take(n as int)
        }),
{
    let h = bytes.take(2);
    crate::ints::lemma_be_value_bound(h);
    reveal_with_fuel(crate::ints::pow256, 3);
    crate::ints::lemma_be_bytes_of_value(h);
    let (v, n) = ValidatorInfo::parse(bytes)->Some_0;
    assert(v.len() == be_value(h));
    assert(be_bytes(v.len(), 2) + v =~= bytes.take(n as int));
}

} // verus!
