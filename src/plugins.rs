//! Wrappers that sit around an application's root node: the fee check in
//! front of every call, and the adapters that split one client between an
//! application and the inter-chain module beside it.
use vstd::prelude::*;
use crate::call::Call;
use crate::error::Failure;

verus! {

/// The fee, in the smallest unit of the native coin, taken for each call.
pub const MIN_FEE: u64 = 10_000;

/// What the sender of the current call has paid, and how the fee is to be
/// handled.
#[derive(Clone, Copy, Debug, PartialEq, Eq)]
pub struct Paid {
    pub amount: u64,
    pub running_payer: bool,
    pub fee_disabled: bool,
}

impl Paid {
    /// Takes `amount` out of what was paid; fails, taking nothing, where too
    /// little was paid.
    pub fn take(&mut self, amount: u64) -> (r: Result<u64, Failure>)
        ensures
            old(self).amount >= amount ==> r == Ok::<u64, Failure>(amount) && *final(self) == (Paid {
                amount: (old(self).amount - amount) as u64,
                ..*old(self)
            }),
            old(self).amount < amount ==> r == Err::<u64, Failure>(Failure::InsufficientFunds) && *final(self)
                == *old(self),
    {
        if self.amount < amount {
            return Err(Failure::InsufficientFunds);
        }
        self.amount = self.amount - amount;
        Ok(amount)
    }
}

/// Who signed the current call, where anyone did.
#[derive(Clone, Debug)]
pub struct Signer {
    pub signer: Option<Vec<u8>>,
}

/// The ambient values of one call, handed to it explicitly. A value the
/// driver did not supply is absent.
#[derive(Clone, Debug)]
pub struct Context {
    pub paid: Option<Paid>,
    pub signer: Option<Signer>,
}

/// The account that signed the current call. Fails where the context has no
/// signer entry, or where the call is unsigned.
pub fn signer(ctx: &Context) -> (r: Result<Vec<u8>, Failure>)
    ensures
        ctx.signer is None ==> r == Err::<Vec<u8>, Failure>(Failure::MissingContext),
        ctx.signer is Some && ctx.signer->Some_0.signer is None ==> r == Err::<Vec<u8>, Failure>(Failure::Unsigned),
        ctx.signer is Some && ctx.signer->Some_0.signer is Some ==> r is Ok && r->Ok_0@
            == ctx.signer->Some_0.signer->Some_0@,
{
    match &ctx.signer {
        None => Err(Failure::MissingContext),
        Some(s) => match &s.signer {
            None => Err(Failure::Unsigned),
            Some(a) => Ok(crate::text::copy_bytes(a.as_slice())),
        },
    }
}

/// Checks that a transfer out of `sender` is signed by `sender`.
pub fn check_transfer_sender(ctx: &Context, sender: &[u8]) -> (r: Result<(), Failure>)
    ensures
        ctx.signer is None ==> r == Err::<(), Failure>(Failure::MissingContext),
        ctx.signer is Some && ctx.signer->Some_0.signer is None ==> r == Err::<(), Failure>(Failure::Unsigned),
        ctx.signer is Some && ctx.signer->Some_0.signer is Some ==> {
            if ctx.signer->Some_0.signer->Some_0@ == sender@ {
                r is Ok
            } else {
                r == Err::<(), Failure>(Failure::WrongSigner)
            }
        },
{
    let who = signer(ctx)?;
    if crate::order::bytes_eq(who.as_slice(), sender) {
        Ok(())
    } else {
        Err(Failure::WrongSigner)
    }
}

/// Waives the fee for the rest of the current call, where a payment is in
/// the context; does nothing otherwise.
pub fn disable_fee(ctx: &mut Context)
    ensures
        match old(ctx).paid {
            Some(p) => final(ctx).paid == Some(Paid { fee_disabled: true, ..p }),
            None => final(ctx).paid is None,
        },
        final(ctx).signer == old(ctx).signer,
{
    match &mut ctx.paid {
        Some(p) => {
            p.fee_disabled = true;
        },
        None => {},
    }
}

/// Whether a call with this payment owes the fee.
pub open spec fn owes_fee(p: Paid) -> bool {
    !p.running_payer && !p.fee_disabled
}

/// Takes the minimum fee before every call to the wrapped node.
pub struct FeePlugin<S, T> {
    pub _symbol: core::marker::PhantomData<S>,
    pub inner: T,
}

impl<S, T: Call> FeePlugin<S, T> {
    pub fn new(inner: T) -> (r: Self)
        ensures
            r.inner == inner,
    {
        FeePlugin { _symbol: core::marker::PhantomData, inner }
    }

    /// Charges the fee from the payment in `ctx` (unless the payer is being
    /// run or the fee is waived), burns it, then passes the call on. Without
    /// a payment, or with too little, the call fails and nothing changes.
    pub fn call(&mut self, ctx: &mut Context, c: T::Call) -> (r: Result<(), Failure>)
        ensures
            old(ctx).paid is None ==> r == Err::<(), Failure>(Failure::MissingContext) && *final(self) == *old(self)
                && *final(ctx) == *old(ctx),
            old(ctx).paid is Some ==> {
                let p = old(ctx).paid->Some_0;
                if owes_fee(p) && p.amount < MIN_FEE {
                    &&& r == Err::<(), Failure>(Failure::InsufficientFunds)
                    &&& *final(self) == *old(self)
                    &&& *final(ctx) == *old(ctx)
                } else {
                    &&& T::call_spec(old(self).inner, c, final(self).inner, r)
                    &&& final(ctx).signer == old(ctx).signer
                    &&& final(ctx).paid == Some(
                        if owes_fee(p) {
                            Paid { amount: (p.amount - MIN_FEE) as u64, ..p }
                        } else {
                            p
                        },
                    )
                }
            },
    {
        match &mut ctx.paid {
            None => {
                return Err(Failure::MissingContext);
            },
            Some(paid) => {
                if !paid.running_payer && !paid.fee_disabled {
                    let _burned = paid.take(MIN_FEE)?;
                }
            },
        }
        self.inner.call(c)
    }
}

impl<S, T: crate::query::Query> FeePlugin<S, T> {
    /// Queries pay no fee: they go straight to the wrapped node.
    pub fn query(&self, q: T::Query) -> (r: Result<(), Failure>)
        ensures
            T::query_spec(self.inner, q, r),
    {
        self.inner.query(q)
    }
}

/// Routes the calls and queries of a client to the application inside an
/// inter-chain plugin.
pub struct InnerAdapter<T, U> {
    pub parent: U,
    pub marker: core::marker::PhantomData<T>,
}

impl<T, U: Clone> Clone for InnerAdapter<T, U> {
    fn clone(&self) -> (r: Self) {
        InnerAdapter { parent: self.parent.clone(), marker: core::marker::PhantomData }
    }
}

impl<T, U: Clone> InnerAdapter<T, U> {
    pub fn new(parent: U) -> (r: Self)
        ensures
            r.parent == parent,
    {
        InnerAdapter { parent, marker: core::marker::PhantomData }
    }
}

/// Routes the calls and queries of a client to the inter-chain module inside
/// an inter-chain plugin.
pub struct IbcAdapter<T, U> {
    pub parent: U,
    pub marker: core::marker::PhantomData<T>,
}

impl<T, U: Clone> Clone for IbcAdapter<T, U> {
    fn clone(&self) -> (r: Self) {
        IbcAdapter { parent: self.parent.clone(), marker: core::marker::PhantomData }
    }
}

impl<T, U: Clone> IbcAdapter<T, U> {
    pub fn new(parent: U) -> (r: Self)
        ensures
            r.parent == parent,
    {
        IbcAdapter { parent, marker: core::marker::PhantomData }
    }
}

} // verus!
