//! The persistence lifecycle of state nodes: bind to a place in a store,
//! flush back to bytes, load from bytes, and migrate bytes written by an
//! older schema.
use vstd::prelude::*;
use crate::encoding::{ByteTerminatedString, Codec, EofTerminatedString, LengthPrefix, LengthVec};
use crate::error::Failure;
use crate::store::{Read, Store};
use crate::text::Text;

verus! {

/// A node of application state. The nodes of this library keep all of their
/// data in their encoding, so binding them to a store changes nothing and
/// flushing writes exactly their encoding.
pub trait State: Codec {
    /// Binds the node to its place in a store.
    fn attach<S: Read>(&mut self, store: Store<S>) -> (r: Result<(), Failure>)
        ensures
            r is Ok,
            final(self)@ == old(self)@,
    {
        Ok(())
    }

    /// Gives up the node and appends its encoding to `out`.
    fn flush(self, out: &mut Vec<u8>) -> (r: Result<(), Failure>)
        ensures
            r is Ok <==> Self::encodable(self@),
            r is Ok ==> final(out)@ == old(out)@ + Self::encoding(self@),
            r is Err ==> final(out)@ == old(out)@,
    {
        let mut bytes = self.encode()?;
        out.append(&mut bytes);
        Ok(())
    }

    /// Rebuilds a node from the front of `bytes`, bound to `store`; also
    /// says how many bytes it took.
    fn load<S: Read>(store: Store<S>, bytes: &[u8]) -> (r: Result<(Self, usize), Failure>)
        ensures
            r is Ok <==> Self::parse(bytes@) is Some,
            r is Ok ==> Self::parse(bytes@) == Some((r->Ok_0.0@, r->Ok_0.1 as nat)),
            r is Ok ==> r->Ok_0.1 <= bytes@.len(),
    {
        Self::decode(bytes)
    }
}

impl<const B: u8, T: Text> State for ByteTerminatedString<B, T> {
}

impl<T: Text> State for EofTerminatedString<T> {
}

impl<P: LengthPrefix, T: Codec> State for LengthVec<P, T> {
}

impl State for u64 {
}

/// Attaching, flushing and loading again reads back the node that was
/// flushed, and takes exactly the bytes that flushing wrote.
pub proof fn lemma_flush_load<T: State>(v: T::V, rest: Seq<u8>)
    requires
        T::encodable(v),
        T::terminated() || rest.len() == 0,
    ensures
        T::parse(T::encoding(v) + rest) == Some((v, T::encoding(v).len())),
{
    T::lemma_round_trip(v, rest);
}

/// A value kept in a store through its encoding alone.
#[derive(Clone, Debug)]
pub struct Adapter<T>(pub T);

impl<T: View> View for Adapter<T> {
    type V = T::V;

    open spec fn view(&self) -> T::V {
        self.0@
    }
}

impl<T: Codec> Codec for Adapter<T> {
    open spec fn encodable(v: T::V) -> bool {
        T::encodable(v)
    }

    open spec fn encoding(v: T::V) -> Seq<u8> {
        T::encoding(v)
    }

    open spec fn parse(bytes: Seq<u8>) -> Option<(T::V, nat)> {
        T::parse(bytes)
    }

    open spec fn terminated() -> bool {
        T::terminated()
    }

    fn is_terminated() -> (r: bool) {
        T::is_terminated()
    }

    fn encode(&self) -> (r: Result<Vec<u8>, Failure>) {
        self.0.encode()
    }

    fn decode(bytes: &[u8]) -> (r: Result<(Self, usize), Failure>) {
        let (v, n) = T::decode(bytes)?;
        Ok((Adapter(v), n))
    }

    proof fn lemma_round_trip(v: T::V, rest: Seq<u8>) {
        T::lemma_round_trip(v, rest);
    }
}

impl<T: Codec> State for Adapter<T> {
}

/// A node that is nothing but its place in a store: it gives the node
/// holding it direct access to the raw keys and values there.
pub struct WrapperStore<S>(pub Store<S>);

impl<S: Read> WrapperStore<S> {
    pub fn create(store: Store<S>, data: ()) -> (r: Result<Self, Failure>)
        ensures
            r is Ok,
            r->Ok_0.0 == store,
    {
        Ok(WrapperStore(store))
    }

    /// Gives up the store; the node itself has nothing to write.
    pub fn flush(self) -> (r: Result<(), Failure>)
        ensures
            r is Ok,
    {
        Ok(())
    }

    pub fn store(&self) -> (r: &Store<S>)
        ensures
            *r == self.0,
    {
        &self.0
    }

    pub fn store_mut(&mut self) -> (r: &mut Store<S>)
        ensures
            *r == old(self).0,
            final(self).0 == *final(r),
    {
        &mut self.0
    }
}

/// The bytes of `v` under version tag `version`.
pub open spec fn versioned<T: Codec>(version: u8, v: T::V) -> Seq<u8> {
    seq![version] + T::encoding(v)
}

/// Appends the version tag and then the node's encoding.
pub fn flush_versioned<T: State>(version: u8, node: T, out: &mut Vec<u8>) -> (r: Result<(), Failure>)
    ensures
        r is Ok <==> T::encodable(node@),
        r is Ok ==> final(out)@ == old(out)@ + versioned::<T>(version, node@),
        r is Err ==> final(out)@ == old(out)@,
{
    let mut bytes = node.encode()?;
    let ghost before = out@;
    out.push(version);
    out.append(&mut bytes);
    assert(out@ =~= before + versioned::<T>(version, node@));
    Ok(())
}

/// Checks the leading version tag against `version`, then loads what
/// follows it. Any other tag fails, naming the tag found.
pub fn load_versioned<T: State, S: Read>(version: u8, store: Store<S>, bytes: &[u8]) -> (r: Result<(T, usize), Failure>)
    ensures
        bytes@.len() == 0 ==> r == Err::<(T, usize), Failure>(Failure::UnexpectedEof),
        bytes@.len() > 0 && bytes@[0] != version ==> r == Err::<(T, usize), Failure>(Failure::InvalidVersion(bytes@[0])),
        bytes@.len() > 0 && bytes@[0] == version ==> {
            &&& r is Ok <==> T::parse(bytes@.skip(1)) is Some
            &&& r is Ok ==> T::parse(bytes@.skip(1)) == Some((r->Ok_0.0@, (r->Ok_0.1 - 1) as nat))
            &&& r is Ok ==> 1 <= r->Ok_0.1 <= bytes@.len()
        },
{
    if bytes.len() == 0 {
        return Err(Failure::UnexpectedEof);
    }
    if bytes[0] != version {
        return Err(Failure::InvalidVersion(bytes[0]));
    }
    let body = &bytes[1..bytes.len()];
    assert(body@ =~= bytes@.skip(1));
    let (node, n) = T::load(store, body)?;
    Ok((node, n + 1))
}

/// Loading what `flush_versioned` wrote gives the node back.
pub proof fn lemma_versioned_round_trip<T: State>(version: u8, v: T::V, rest: Seq<u8>)
    requires
        T::encodable(v),
        T::terminated() || rest.len() == 0,
    ensures
        (versioned::<T>(version, v) + rest)[0] == version,
        T::parse((versioned::<T>(version, v) + rest).skip(1)) == Some((v, T::encoding(v).len())),
{
    assert((versioned::<T>(version, v) + rest).skip(1) =~= T::encoding(v) + rest);
    T::lemma_round_trip(v, rest);
}

} // verus!
