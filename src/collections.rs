//! Keyed state kept directly in a store: each entry lives under the encoding
//! of its key, so the store's key order is the order of the keys.
use vstd::prelude::*;
use crate::encoding::Codec;
use crate::error::Failure;
use crate::store::{Read, Store, Write};

verus! {

/// A keyed collection bound to its place in a store: the value of key `k`
/// is stored, encoded, under the encoding of `k`.
pub struct Table<K, V, S> {
    store: Store<S>,
    _entries: core::marker::PhantomData<(K, V)>,
}

impl<K: Codec, V: Codec, S: Write> Table<K, V, S> {
    pub closed spec fn store(&self) -> Store<S> {
        self.store
    }

    /// The raw entries under the table's place: encoded key to encoded value.
    pub open spec fn entries(&self) -> Map<Seq<u8>, Seq<u8>> {
        self.store().contents()
    }

    pub open spec fn wf(&self) -> bool {
        self.store().wf()
    }

    /// Binds a table to `store`; whatever entries it already holds are the
    /// table's.
    pub fn create(store: Store<S>) -> (r: Self)
        ensures
            r.store() == store,
    {
        Table { store, _entries: core::marker::PhantomData }
    }

    /// Gives up the binding and hands the store back.
    pub fn flush(self) -> (r: Store<S>)
        ensures
            r == self.store(),
    {
        self.store
    }

    /// Stores `value` under `key`. Fails, changing nothing, where either has
    /// no encoding.
    pub fn insert(&mut self, key: &K, value: &V) -> (r: Result<(), Failure>)
        requires
            old(self).wf(),
        ensures
            final(self).wf(),
            r is Ok <==> K::encodable(key@) && V::encodable(value@),
            r is Ok ==> final(self).entries() == old(self).entries().insert(
                K::encoding(key@),
                V::encoding(value@),
            ),
            r is Err ==> final(self).entries() == old(self).entries(),
    {
        let k = key.encode()?;
        let v = value.encode()?;
        self.store.put(k, v)
    }

    /// Removes the entry of `key`, where there is one. Fails, changing
    /// nothing, where the key has no encoding.
    pub fn remove(&mut self, key: &K) -> (r: Result<(), Failure>)
        requires
            old(self).wf(),
        ensures
            final(self).wf(),
            r is Ok <==> K::encodable(key@),
            r is Ok ==> final(self).entries() == old(self).entries().remove(K::encoding(key@)),
            r is Err ==> final(self).entries() == old(self).entries(),
    {
        let k = key.encode()?;
        self.store.delete(k.as_slice())
    }

    /// The value stored under `key`: `None` where there is no entry, an error
    /// where the key has no encoding or the stored bytes do not decode.
    pub fn get(&self, key: &K) -> (r: Result<Option<V>, Failure>)
        requires
            self.wf(),
        ensures
            !K::encodable(key@) ==> r is Err,
            K::encodable(key@) && !self.entries().contains_key(K::encoding(key@)) ==> r matches Ok(None),
            K::encodable(key@) && self.entries().contains_key(K::encoding(key@)) ==> {
                let stored = self.entries()[K::encoding(key@)];
                &&& r is Ok <==> V::parse(stored) is Some
                &&& r is Ok ==> r->Ok_0 is Some && V::parse(stored)->Some_0.0 == r->Ok_0->Some_0@
            },
    {
        let k = key.encode()?;
        match self.store.get(k.as_slice())? {
            None => Ok(None),
            Some(bytes) => {
                let (v, _) = V::decode(bytes.as_slice())?;
                Ok(Some(v))
            },
        }
    }
}

/// A value stored in a table and read back is the value stored.
pub proof fn lemma_table_read_back<K: Codec, V: Codec>(
    entries: Map<Seq<u8>, Seq<u8>>,
    k: K::V,
    v: V::V,
)
    requires
        K::encodable(k),
        V::encodable(v),
    ensures
        entries.insert(K::encoding(k), V::encoding(v))[K::encoding(k)] == V::encoding(v),
        V::parse(V::encoding(v)) == Some((v, V::encoding(v).len())),
{
    assert(V::encoding(v) + Seq::<u8>::empty() =~= V::encoding(v));
    V::lemma_round_trip(v, Seq::empty());
}

} // verus!
