use vstd::prelude::*;

verus! {

/// Every failure the library reports. Decoding, dispatch, migration and
/// arithmetic failures are all returned to the caller, never swallowed.
#[derive(Debug, Clone, PartialEq, Eq)]
pub enum Failure {
    /// A decoder met a byte it cannot accept at this position.
    UnexpectedByte(u8),
    /// A decoder ran out of input.
    UnexpectedEof,
    /// A value has no encoding: an instruction whose leading byte falls
    /// outside its range, a segment that holds its own terminator, or a count
    /// that does not match its sequence.
    UnencodableVariant,
    /// A count or an amount does not fit the integer type meant to hold it.
    Overflow,
    /// A call or query addressed a child past the end of a sequence.
    IndexOutOfBounds(u64),
    /// A call or query addressed the contents of an empty optional.
    EmptyOption,
    /// A call or query reached a fallible wrapper that holds an error; the
    /// string is that error's description.
    Held(String),
    /// A query asked for a keyed entry that is absent.
    NotFound,
    /// Stored data carries a version tag with no migration path.
    InvalidVersion(u8),
    /// A call needs an ambient value (a payment, a signer) that the context
    /// does not hold.
    MissingContext,
    /// The ambient payment does not cover the fee.
    InsufficientFunds,
    /// The call carries no signature.
    Unsigned,
    /// The call is signed by someone other than the account it acts for.
    WrongSigner,
    /// A textual segment does not spell a value of its type.
    InvalidText,
    /// A fixed label of a key is not where it should be.
    UnexpectedLabel,
}

} // verus!
