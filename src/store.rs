//! The key/value store contract and its in-memory implementations.
use vstd::prelude::*;
use crate::error::Failure;
use crate::order::{bytes_eq, bytes_lt, lex_lt, lemma_lex_total};
use crate::sorted::{
    as_map, is_next, is_prev, keys_sorted, lemma_entry, lemma_insert, lemma_next, lemma_prev,
    lemma_remove, lemma_split, lemma_update, nothing_after, nothing_before,
};
use crate::text::copy_bytes;

verus! {

/// A key and its value.
pub type KV = (Vec<u8>, Vec<u8>);

/// Read access to a key/value store over byte keys, ordered byte-wise.
///
/// A missing key is a normal answer (`None`), never an error.
pub trait Read {
    spec fn wf(&self) -> bool;

    /// The keys and values the store holds.
    spec fn contents(&self) -> Map<Seq<u8>, Seq<u8>>;

    fn get(&self, key: &[u8]) -> (r: Result<Option<Vec<u8>>, Failure>)
        requires
            self.wf(),
        ensures
            r is Ok,
            r->Ok_0 is Some <==> self.contents().contains_key(key@),
            r->Ok_0 is Some ==> r->Ok_0->Some_0@ == self.contents()[key@],
    ;

    /// The entry with the least key after `key`.
    fn get_next(&self, key: &[u8]) -> (r: Result<Option<KV>, Failure>)
        requires
            self.wf(),
        ensures
            r is Ok,
            r->Ok_0 is None ==> nothing_after(self.contents(), key@),
            r->Ok_0 is Some ==> is_next(self.contents(), key@, r->Ok_0->Some_0.0@),
            r->Ok_0 is Some ==> r->Ok_0->Some_0.1@ == self.contents()[r->Ok_0->Some_0.0@],
    ;

    /// The entry with the greatest key before `key`.
    fn get_prev(&self, key: &[u8]) -> (r: Result<Option<KV>, Failure>)
        requires
            self.wf(),
        ensures
            r is Ok,
            r->Ok_0 is None ==> nothing_before(self.contents(), key@),
            r->Ok_0 is Some ==> is_prev(self.contents(), key@, r->Ok_0->Some_0.0@),
            r->Ok_0 is Some ==> r->Ok_0->Some_0.1@ == self.contents()[r->Ok_0->Some_0.0@],
    ;
}

/// Write access: `put` overwrites, `delete` of a missing key does nothing.
pub trait Write: Read {
    fn put(&mut self, key: Vec<u8>, value: Vec<u8>) -> (r: Result<(), Failure>)
        requires
            old(self).wf(),
        ensures
            r is Ok,
            final(self).wf(),
            final(self).contents() == old(self).contents().insert(key@, value@),
    ;

    fn delete(&mut self, key: &[u8]) -> (r: Result<(), Failure>)
        requires
            old(self).wf(),
        ensures
            r is Ok,
            final(self).wf(),
            final(self).contents() == old(self).contents().remove(key@),
    ;
}

/// The backing store: entries kept sorted by key.
pub struct MapStore {
    entries: Vec<KV>,
}

pub open spec fn kv_view(e: KV) -> (Seq<u8>, Seq<u8>) {
    (e.0@, e.1@)
}

pub open spec fn kvs_view(v: Seq<KV>) -> Seq<(Seq<u8>, Seq<u8>)> {
    v.map_values(|e: KV| kv_view(e))
}

impl MapStore {
    pub closed spec fn entries_view(&self) -> Seq<(Seq<u8>, Seq<u8>)> {
        kvs_view(self.entries@)
    }

    pub fn new() -> (r: MapStore)
        ensures
            r.wf(),
            r.contents() == Map::<Seq<u8>, Seq<u8>>::empty(),
    {
        let r = MapStore { entries: Vec::new() };
        assert(r.entries_view() =~= seq![]);
        assert(as_map(r.entries_view()) =~= Map::<Seq<u8>, Seq<u8>>::empty());
        r
    }

    /// The first position whose key is not before `key`.
    fn lower_bound(&self, key: &[u8]) -> (p: usize)
        requires
            self.wf(),
        ensures
            p <= self.entries_view().len(),
            forall|i: int| 0 <= i < p ==> lex_lt(#[trigger] self.entries_view()[i].0, key@),
            p < self.entries_view().len() ==> !lex_lt(self.entries_view()[p as int].0, key@),
    {
        let mut i: usize = 0;
        while i < self.entries.len() && bytes_lt(self.entries[i].0.as_slice(), key)
            invariant
                i <= self.entries@.len(),
                forall|j: int| 0 <= j < i ==> lex_lt(#[trigger] self.entries_view()[j].0, key@),
            decreases self.entries.len() - i,
        {
            i = i + 1;
        }
        i
    }

    /// The first position whose key comes after `key`.
    fn upper_bound(&self, key: &[u8]) -> (p: usize)
        requires
            self.wf(),
        ensures
            p <= self.entries_view().len(),
            forall|i: int| 0 <= i < p ==> !lex_lt(key@, #[trigger] self.entries_view()[i].0),
            p < self.entries_view().len() ==> lex_lt(key@, self.entries_view()[p as int].0),
    {
        let mut i: usize = 0;
        while i < self.entries.len() && !bytes_lt(key, self.entries[i].0.as_slice())
            invariant
                i <= self.entries@.len(),
                forall|j: int| 0 <= j < i ==> !lex_lt(key@, #[trigger] self.entries_view()[j].0),
            decreases self.entries.len() - i,
        {
            i = i + 1;
        }
        i
    }

    fn entry_at(&self, i: usize) -> (r: KV)
        requires
            i < self.entries@.len(),
        ensures
            kv_view(r) == self.entries_view()[i as int],
    {
        (copy_bytes(self.entries[i].0.as_slice()), copy_bytes(self.entries[i].1.as_slice()))
    }

    /// The entries whose keys lie in `[start, end)`, in key order; with no
    /// `end`, all entries from `start` on.
    pub fn range(&self, start: &[u8], end: Option<&[u8]>) -> (r: Vec<KV>)
        requires
            self.wf(),
        ensures
            keys_sorted(kvs_view(r@)),
            forall|k: Seq<u8>| #[trigger] as_map(kvs_view(r@)).contains_key(k)
                <==> (self.contents().contains_key(k) && !lex_lt(k, start@) && match end {
                    Some(e) => lex_lt(k, e@),
                    None => true,
                }),
            forall|k: Seq<u8>| #[trigger] as_map(kvs_view(r@)).contains_key(k)
                ==> as_map(kvs_view(r@))[k] == self.contents()[k],
    {
        let ghost s = self.entries_view();
        let lo = self.lower_bound(start);
        let hi = match end {
            Some(e) => self.lower_bound(e),
            None => self.entries.len(),
        };
        let mut out: Vec<KV> = Vec::new();
        let mut i = lo;
        while i < hi
            invariant
                s == self.entries_view(),
                self.wf(),
                lo <= s.len(),
                hi <= s.len(),
                lo <= i,
                i <= hi || i == lo,
                kvs_view(out@) == s.subrange(lo as int, i as int),
            decreases hi - i,
        {
            let e = self.entry_at(i);
            let ghost before = out@;
            out.push(e);
            i = i + 1;
            assert(out@ == before.push(e));
            assert(kvs_view(out@) =~= kvs_view(before).push(kv_view(e)));
            assert(kvs_view(out@) =~= s.subrange(lo as int, i as int));
        }
        assert(forall|j: int| lo <= j < i ==> match end {
            Some(e) => lex_lt(#[trigger] s[j].0, e@),
            None => true,
        });
        proof {
            if i == lo && hi < lo && i < s.len() {
                match end {
                    Some(e) => {
                        if lex_lt(s[i as int].0, e@) {
                            assert(lex_lt(s[hi as int].0, s[lo as int].0));
                            crate::order::lemma_lex_transitive(s[hi as int].0, s[lo as int].0, e@);
                        }
                    },
                    None => {},
                }
            }
        }
        assert(i < s.len() && i >= lo ==> match end {
            Some(e) => !lex_lt(s[i as int].0, e@),
            None => false,
        });
        let ghost t = s.subrange(lo as int, i as int);
        assert(keys_sorted(t));
        proof {
            assert forall|k: Seq<u8>| #[trigger] as_map(t).contains_key(k)
                <==> (self.contents().contains_key(k) && !lex_lt(k, start@) && match end {
                    Some(e) => lex_lt(k, e@),
                    None => true,
                }) by {
                if as_map(t).contains_key(k) {
                    let j = crate::sorted::lemma_key_index(t, k);
                    lemma_entry(s, j + lo);
                    if j + lo > lo {
                        assert(lex_lt(s[lo as int].0, s[j + lo].0));
                        if lex_lt(k, start@) {
                            crate::order::lemma_lex_transitive(s[lo as int].0, k, start@);
                        }
                    }
                }
                if self.contents().contains_key(k) && !lex_lt(k, start@) && match end {
                    Some(e) => lex_lt(k, e@),
                    None => true,
                } {
                    let j = crate::sorted::lemma_key_index(s, k);
                    if i < s.len() && j >= i {
                        match end {
                            Some(e) => {
                                if j > i {
                                    assert(lex_lt(s[i as int].0, s[j].0));
                                    crate::order::lemma_lex_transitive(s[i as int].0, k, e@);
                                }
                            },
                            None => {},
                        }
                    }
                    assert(t[j - lo] == s[j]);
                    lemma_entry(t, j - lo);
                }
            }
            assert forall|k: Seq<u8>| #[trigger] as_map(t).contains_key(k) implies as_map(t)[k] == self.contents()[k] by {
                let j = crate::sorted::lemma_key_index(t, k);
                lemma_entry(s, j + lo);
            }
        }
        out
    }
}

impl Read for MapStore {
    open spec fn wf(&self) -> bool {
        keys_sorted(self.entries_view())
    }

    open spec fn contents(&self) -> Map<Seq<u8>, Seq<u8>> {
        as_map(self.entries_view())
    }

    fn get(&self, key: &[u8]) -> (r: Result<Option<Vec<u8>>, Failure>) {
        let p = self.lower_bound(key);
        proof {
            lemma_lex_total(key@, key@);
        }
        if p < self.entries.len() && bytes_eq(self.entries[p].0.as_slice(), key) {
            proof {
                lemma_entry(self.entries_view(), p as int);
            }
            Ok(Some(copy_bytes(self.entries[p].1.as_slice())))
        } else {
            proof {
                lemma_split(self.entries_view(), p as int, key@);
                if self.contents().contains_key(key@) {
                    let j = crate::sorted::lemma_key_index(self.entries_view(), key@);
                    crate::order::lemma_lex_irreflexive(key@);
                }
            }
            Ok(None)
        }
    }

    fn get_next(&self, key: &[u8]) -> (r: Result<Option<KV>, Failure>) {
        let p = self.upper_bound(key);
        proof {
            lemma_next(self.entries_view(), key@, p as int);
        }
        if p < self.entries.len() {
            Ok(Some(self.entry_at(p)))
        } else {
            Ok(None)
        }
    }

    fn get_prev(&self, key: &[u8]) -> (r: Result<Option<KV>, Failure>) {
        let p = self.lower_bound(key);
        proof {
            lemma_prev(self.entries_view(), key@, p as int);
        }
        if p > 0 {
            Ok(Some(self.entry_at(p - 1)))
        } else {
            Ok(None)
        }
    }
}

impl Write for MapStore {
    fn put(&mut self, key: Vec<u8>, value: Vec<u8>) -> (r: Result<(), Failure>) {
        let ghost s = self.entries_view();
        let p = self.lower_bound(key.as_slice());
        if p < self.entries.len() && bytes_eq(self.entries[p].0.as_slice(), key.as_slice()) {
            proof {
                lemma_update(s, p as int, value@);
            }
            self.entries.set(p, (key, value));
            assert(self.entries_view() =~= s.update(p as int, (s[p as int].0, value@)));
        } else {
            proof {
                lemma_split(s, p as int, key@);
                lemma_insert(s, p as int, key@, value@);
            }
            let ghost kv = (key@, value@);
            self.entries.insert(p, (key, value));
            assert(self.entries_view() =~= s.insert(p as int, kv));
        }
        Ok(())
    }

    fn delete(&mut self, key: &[u8]) -> (r: Result<(), Failure>) {
        let ghost s = self.entries_view();
        let p = self.lower_bound(key);
        if p < self.entries.len() && bytes_eq(self.entries[p].0.as_slice(), key) {
            proof {
                lemma_remove(s, p as int);
            }
            self.entries.remove(p);
            assert(self.entries_view() =~= s.remove(p as int));
        } else {
            proof {
                lemma_split(s, p as int, key@);
                if self.contents().contains_key(key@) {
                    let j = crate::sorted::lemma_key_index(s, key@);
                    crate::order::lemma_lex_irreflexive(key@);
                }
                assert(self.contents() =~= self.contents().remove(key@));
            }
        }
        Ok(())
    }
}

/// A store that holds nothing: every key is absent.
pub struct NullStore;

impl NullStore {
    /// Writes are accepted and dropped.
    pub fn put(&mut self, key: Vec<u8>, value: Vec<u8>) -> (r: Result<(), Failure>)
        ensures
            r is Ok,
    {
        Ok(())
    }

    /// Deletes are accepted and dropped.
    pub fn delete(&mut self, key: &[u8]) -> (r: Result<(), Failure>)
        ensures
            r is Ok,
    {
        Ok(())
    }
}

impl Read for NullStore {
    open spec fn wf(&self) -> bool {
        true
    }

    open spec fn contents(&self) -> Map<Seq<u8>, Seq<u8>> {
        Map::empty()
    }

    fn get(&self, key: &[u8]) -> (r: Result<Option<Vec<u8>>, Failure>) {
        Ok(None)
    }

    fn get_next(&self, key: &[u8]) -> (r: Result<Option<KV>, Failure>) {
        Ok(None)
    }

    fn get_prev(&self, key: &[u8]) -> (r: Result<Option<KV>, Failure>) {
        Ok(None)
    }
}

/// A pending write: `Some` puts a value, `None` deletes the key.
pub type Pending = (Vec<u8>, Option<Vec<u8>>);

pub open spec fn opt_view(v: Option<Vec<u8>>) -> Option<Seq<u8>> {
    match v {
        Some(b) => Some(b@),
        None => None,
    }
}

pub open spec fn pending_view(v: Seq<Pending>) -> Seq<(Seq<u8>, Option<Seq<u8>>)> {
    v.map_values(|e: Pending| (e.0@, opt_view(e.1)))
}

/// What a store reads like once the pending writes `pend` are laid over
/// `base`.
pub open spec fn overlay(base: Map<Seq<u8>, Seq<u8>>, pend: Map<Seq<u8>, Option<Seq<u8>>>) -> Map<
    Seq<u8>,
    Seq<u8>,
> {
    Map::new(
        |k: Seq<u8>|
            if pend.contains_key(k) {
                pend[k] is Some
            } else {
                base.contains_key(k)
            },
        |k: Seq<u8>|
            if pend.contains_key(k) {
                pend[k]->Some_0
            } else {
                base[k]
            },
    )
}

pub proof fn lemma_overlay_put(
    base: Map<Seq<u8>, Seq<u8>>,
    pend: Map<Seq<u8>, Option<Seq<u8>>>,
    k: Seq<u8>,
    v: Option<Seq<u8>>,
)
    ensures
        v is Some ==> overlay(base, pend.insert(k, v)) == overlay(base, pend).insert(k, v->Some_0),
        v is None ==> overlay(base, pend.insert(k, v)) == overlay(base, pend).remove(k),
{
    if v is Some {
        assert(overlay(base, pend.insert(k, v)) =~= overlay(base, pend).insert(k, v->Some_0));
    } else {
        assert(overlay(base, pend.insert(k, v)) =~= overlay(base, pend).remove(k));
    }
}

/// An overlay that buffers writes in memory. Reads through it see the
/// buffered writes; the store beneath sees none of them until `commit`, and
/// `discard` drops them all.
pub struct BufStore<S> {
    inner: S,
    pending: Vec<Pending>,
}

impl<S: Read> BufStore<S> {
    pub closed spec fn pending_map(&self) -> Map<Seq<u8>, Option<Seq<u8>>> {
        as_map(pending_view(self.pending@))
    }

    pub closed spec fn pending_sorted(&self) -> bool {
        keys_sorted(pending_view(self.pending@))
    }

    /// The store beneath, as it stands.
    pub closed spec fn base(&self) -> S {
        self.inner
    }

    pub fn new(inner: S) -> (r: BufStore<S>)
        requires
            inner.wf(),
        ensures
            r.wf(),
            r.base() == inner,
            r.contents() == inner.contents(),
    {
        let r = BufStore { inner, pending: Vec::new() };
        assert(pending_view(r.pending@) =~= seq![]);
        assert(r.contents() =~= inner.contents());
        r
    }

    /// Drops the buffered writes and hands back the store beneath, untouched.
    pub fn discard(self) -> (r: S)
        ensures
            r == self.base(),
    {
        self.inner
    }

    fn pending_lower_bound(&self, key: &[u8]) -> (p: usize)
        requires
            self.wf(),
        ensures
            p <= self.pending@.len(),
            forall|i: int| 0 <= i < p ==> lex_lt(#[trigger] pending_view(self.pending@)[i].0, key@),
            p < self.pending@.len() ==> !lex_lt(pending_view(self.pending@)[p as int].0, key@),
    {
        let mut i: usize = 0;
        while i < self.pending.len() && bytes_lt(self.pending[i].0.as_slice(), key)
            invariant
                i <= self.pending@.len(),
                forall|j: int| 0 <= j < i ==> lex_lt(#[trigger] pending_view(self.pending@)[j].0, key@),
            decreases self.pending.len() - i,
        {
            i = i + 1;
        }
        i
    }

    /// Where `key` has a buffered write, its position.
    fn pending_find(&self, key: &[u8]) -> (r: Option<usize>)
        requires
            self.wf(),
        ensures
            r is Some <==> self.pending_map().contains_key(key@),
            r is Some ==> r->Some_0 < self.pending@.len() && pending_view(self.pending@)[r->Some_0 as int].0
                == key@,
            r is Some ==> self.pending_map()[key@] == pending_view(self.pending@)[r->Some_0 as int].1,
    {
        let p = self.pending_lower_bound(key);
        if p < self.pending.len() && bytes_eq(self.pending[p].0.as_slice(), key) {
            proof {
                lemma_entry(pending_view(self.pending@), p as int);
            }
            Some(p)
        } else {
            proof {
                lemma_split(pending_view(self.pending@), p as int, key@);
                if self.pending_map().contains_key(key@) {
                    let j = crate::sorted::lemma_key_index(pending_view(self.pending@), key@);
                    crate::order::lemma_lex_irreflexive(key@);
                }
            }
            None
        }
    }

    /// The first buffered put after `key`.
    fn pending_next_value(&self, key: &[u8]) -> (p: usize)
        requires
            self.wf(),
        ensures
            p <= self.pending@.len(),
            forall|i: int|
                0 <= i < p && lex_lt(key@, #[trigger] pending_view(self.pending@)[i].0)
                    ==> pending_view(self.pending@)[i].1 is None,
            p < self.pending@.len() ==> lex_lt(key@, pending_view(self.pending@)[p as int].0)
                && pending_view(self.pending@)[p as int].1 is Some,
    {
        let mut i: usize = 0;
        while i < self.pending.len() && !(bytes_lt(key, self.pending[i].0.as_slice())
            && self.pending[i].1.is_some())
            invariant
                i <= self.pending@.len(),
                forall|j: int|
                    0 <= j < i && lex_lt(key@, #[trigger] pending_view(self.pending@)[j].0)
                        ==> pending_view(self.pending@)[j].1 is None,
            decreases self.pending.len() - i,
        {
            i = i + 1;
        }
        i
    }

    /// The first buffered put before `key`, counted from the end: the result
    /// is one past its position, or 0 where there is none.
    fn pending_prev_value(&self, key: &[u8]) -> (p: usize)
        requires
            self.wf(),
        ensures
            p <= self.pending@.len(),
            forall|i: int|
                p <= i < self.pending@.len() && lex_lt(#[trigger] pending_view(self.pending@)[i].0, key@)
                    ==> pending_view(self.pending@)[i].1 is None,
            p > 0 ==> lex_lt(pending_view(self.pending@)[p - 1].0, key@)
                && pending_view(self.pending@)[p - 1].1 is Some,
    {
        let mut i: usize = self.pending.len();
        while i > 0 && !(bytes_lt(self.pending[i - 1].0.as_slice(), key)
            && self.pending[i - 1].1.is_some())
            invariant
                i <= self.pending@.len(),
                forall|j: int|
                    i <= j < self.pending@.len() && lex_lt(#[trigger] pending_view(self.pending@)[j].0, key@)
                        ==> pending_view(self.pending@)[j].1 is None,
            decreases i,
        {
            i = i - 1;
        }
        i
    }

    /// The least key of the store beneath that comes after `key` and has no
    /// buffered write.
    fn inner_next_unbuffered(&self, key: &[u8]) -> (r: Option<KV>)
        requires
            self.wf(),
        ensures
            r is None ==> forall|k2: Seq<u8>|
                #[trigger] self.base().contents().contains_key(k2) && lex_lt(key@, k2)
                    ==> self.pending_map().contains_key(k2),
            r is Some ==> {
                let k = r->Some_0.0@;
                &&& self.base().contents().contains_key(k)
                &&& !self.pending_map().contains_key(k)
                &&& lex_lt(key@, k)
                &&& r->Some_0.1@ == self.base().contents()[k]
                &&& forall|k2: Seq<u8>|
                    #[trigger] self.base().contents().contains_key(k2) && lex_lt(key@, k2)
                        && !self.pending_map().contains_key(k2) ==> !lex_lt(k2, k)
            },
    {
        let ghost pv = pending_view(self.pending@);
        let ghost base = self.inner.contents();
        let ghost pend = self.pending_map();
        let mut cur = copy_bytes(key);
        let ghost mut q: int = 0;
        loop
            invariant
                self.wf(),
                pv == pending_view(self.pending@),
                base == self.inner.contents(),
                pend == self.pending_map(),
                cur@ == key@ || lex_lt(key@, cur@),
                forall|k2: Seq<u8>|
                    #[trigger] base.contains_key(k2) && lex_lt(key@, k2) && !lex_lt(cur@, k2)
                        ==> pend.contains_key(k2),
                0 <= q <= pv.len(),
                forall|i: int| 0 <= i < q ==> !lex_lt(cur@, #[trigger] pv[i].0),
            decreases pv.len() - q,
        {
            let next = self.inner.get_next(cur.as_slice());
            match next {
                Ok(Some(kv)) => {
                    proof {
                        if cur@ != key@ {
                            crate::order::lemma_lex_transitive(key@, cur@, kv.0@);
                        }
                    }
                    match self.pending_find(kv.0.as_slice()) {
                        Some(j) => {
                            proof {
                                assert(j >= q) by {
                                    if j < q {
                                        assert(!lex_lt(cur@, pv[j as int].0));
                                    }
                                }
                                assert forall|k2: Seq<u8>|
                                    #[trigger] base.contains_key(k2) && lex_lt(key@, k2) && !lex_lt(kv.0@, k2)
                                        implies pend.contains_key(k2) by {
                                    if lex_lt(cur@, k2) {
                                        lemma_lex_total(k2, kv.0@);
                                    }
                                }
                                assert forall|i: int| 0 <= i < j + 1 implies !lex_lt(kv.0@, #[trigger] pv[i].0) by {
                                    if i < j {
                                        assert(lex_lt(pv[i].0, pv[j as int].0));
                                        crate::order::lemma_lex_asymmetric(pv[i].0, pv[j as int].0);
                                    } else {
                                        crate::order::lemma_lex_irreflexive(kv.0@);
                                    }
                                }
                                q = j + 1;
                            }
                            cur = kv.0;
                        },
                        None => {
                            proof {
                                assert forall|k2: Seq<u8>|
                                    #[trigger] base.contains_key(k2) && lex_lt(key@, k2) && !pend.contains_key(k2)
                                        implies !lex_lt(k2, kv.0@) by {
                                    lemma_lex_total(cur@, k2);
                                }
                            }
                            return Some(kv);
                        },
                    }
                },
                _ => {
                    proof {
                        assert forall|k2: Seq<u8>|
                            #[trigger] base.contains_key(k2) && lex_lt(key@, k2) implies pend.contains_key(k2) by {
                            lemma_lex_total(cur@, k2);
                        }
                    }
                    return None;
                },
            }
        }
    }

    /// The greatest key of the store beneath that comes before `key` and has
    /// no buffered write.
    fn inner_prev_unbuffered(&self, key: &[u8]) -> (r: Option<KV>)
        requires
            self.wf(),
        ensures
            r is None ==> forall|k2: Seq<u8>|
                #[trigger] self.base().contents().contains_key(k2) && lex_lt(k2, key@)
                    ==> self.pending_map().contains_key(k2),
            r is Some ==> {
                let k = r->Some_0.0@;
                &&& self.base().contents().contains_key(k)
                &&& !self.pending_map().contains_key(k)
                &&& lex_lt(k, key@)
                &&& r->Some_0.1@ == self.base().contents()[k]
                &&& forall|k2: Seq<u8>|
                    #[trigger] self.base().contents().contains_key(k2) && lex_lt(k2, key@)
                        && !self.pending_map().contains_key(k2) ==> !lex_lt(k, k2)
            },
    {
        let ghost pv = pending_view(self.pending@);
        let ghost base = self.inner.contents();
        let ghost pend = self.pending_map();
        let mut cur = copy_bytes(key);
        let ghost mut q: int = pv.len() as int;
        loop
            invariant
                self.wf(),
                pv == pending_view(self.pending@),
                base == self.inner.contents(),
                pend == self.pending_map(),
                cur@ == key@ || lex_lt(cur@, key@),
                forall|k2: Seq<u8>|
                    #[trigger] base.contains_key(k2) && lex_lt(k2, key@) && !lex_lt(k2, cur@)
                        ==> pend.contains_key(k2),
                0 <= q <= pv.len(),
                forall|i: int| q <= i < pv.len() ==> !lex_lt(#[trigger] pv[i].0, cur@),
            decreases q,
        {
            let prev = self.inner.get_prev(cur.as_slice());
            match prev {
                Ok(Some(kv)) => {
                    proof {
                        if cur@ != key@ {
                            crate::order::lemma_lex_transitive(kv.0@, cur@, key@);
                        }
                    }
                    match self.pending_find(kv.0.as_slice()) {
                        Some(j) => {
                            proof {
                                assert(j < q) by {
                                    if j >= q {
                                        assert(!lex_lt(pv[j as int].0, cur@));
                                    }
                                }
                                assert forall|k2: Seq<u8>|
                                    #[trigger] base.contains_key(k2) && lex_lt(k2, key@) && !lex_lt(k2, kv.0@)
                                        implies pend.contains_key(k2) by {
                                    if lex_lt(k2, cur@) {
                                        lemma_lex_total(k2, kv.0@);
                                    }
                                }
                                assert forall|i: int| j <= i < pv.len() implies !lex_lt(#[trigger] pv[i].0, kv.0@) by {
                                    if i > j {
                                        assert(lex_lt(pv[j as int].0, pv[i].0));
                                        crate::order::lemma_lex_asymmetric(pv[j as int].0, pv[i].0);
                                    } else {
                                        crate::order::lemma_lex_irreflexive(kv.0@);
                                    }
                                }
                                q = j as int;
                            }
                            cur = kv.0;
                        },
                        None => {
                            proof {
                                assert forall|k2: Seq<u8>|
                                    #[trigger] base.contains_key(k2) && lex_lt(k2, key@) && !pend.contains_key(k2)
                                        implies !lex_lt(kv.0@, k2) by {
                                    lemma_lex_total(cur@, k2);
                                }
                            }
                            return Some(kv);
                        },
                    }
                },
                _ => {
                    proof {
                        assert forall|k2: Seq<u8>|
                            #[trigger] base.contains_key(k2) && lex_lt(k2, key@) implies pend.contains_key(k2) by {
                            lemma_lex_total(cur@, k2);
                        }
                    }
                    return None;
                },
            }
        }
    }

    fn buffer(&mut self, key: Vec<u8>, value: Option<Vec<u8>>)
        requires
            old(self).wf(),
        ensures
            final(self).wf(),
            final(self).inner == old(self).inner,
            final(self).pending_map() == old(self).pending_map().insert(key@, opt_view(value)),
    {
        let ghost s = pending_view(self.pending@);
        let p = self.pending_lower_bound(key.as_slice());
        let ghost kv = (key@, opt_view(value));
        if p < self.pending.len() && bytes_eq(self.pending[p].0.as_slice(), key.as_slice()) {
            proof {
                lemma_update(s, p as int, opt_view(value));
            }
            self.pending.set(p, (key, value));
            assert(pending_view(self.pending@) =~= s.update(p as int, (s[p as int].0, kv.1)));
        } else {
            proof {
                lemma_split(s, p as int, key@);
                lemma_insert(s, p as int, key@, opt_view(value));
            }
            self.pending.insert(p, (key, value));
            assert(pending_view(self.pending@) =~= s.insert(p as int, kv));
        }
    }
}

impl<S: Write> BufStore<S> {
    /// Applies every buffered write to the store beneath, in one pass, and
    /// hands it back.
    pub fn commit(self) -> (r: Result<S, Failure>)
        requires
            self.wf(),
        ensures
            r is Ok,
            r->Ok_0.wf(),
            r->Ok_0.contents() == self.contents(),
    {
        let ghost base = self.inner.contents();
        let ghost s = pending_view(self.pending@);
        let BufStore { mut inner, pending } = self;
        let mut pending = pending;
        let mut i: usize = 0;
        let n = pending.len();
        assert(s.take(0) =~= seq![]);
        assert(overlay(base, as_map(s.take(0))) =~= base);
        while i < n
            invariant
                n == pending@.len(),
                s == pending_view(pending@),
                keys_sorted(s),
                i <= n,
                inner.wf(),
                inner.contents() == overlay(base, as_map(s.take(i as int))),
            decreases n - i,
        {
            let ghost e = s[i as int];
            proof {
                assert(s.take(i as int + 1) =~= s.take(i as int).insert(i as int, e));
                assert forall|j: int| 0 <= j < i implies lex_lt(#[trigger] s.take(i as int)[j].0, e.0) by {
                    assert(s.take(i as int)[j] == s[j]);
                }
                lemma_insert(s.take(i as int), i as int, e.0, e.1);
                lemma_overlay_put(base, as_map(s.take(i as int)), e.0, e.1);
            }
            let key = copy_bytes(pending[i].0.as_slice());
            match &pending[i].1 {
                Some(v) => {
                    let value = copy_bytes(v.as_slice());
                    let _ = inner.put(key, value);
                },
                None => {
                    let _ = inner.delete(key.as_slice());
                },
            }
            i = i + 1;
        }
        assert(s.take(n as int) =~= s);
        Ok(inner)
    }
}

impl<S: Read> Read for BufStore<S> {
    open spec fn wf(&self) -> bool {
        self.base().wf() && self.pending_sorted()
    }

    open spec fn contents(&self) -> Map<Seq<u8>, Seq<u8>> {
        overlay(self.base().contents(), self.pending_map())
    }

    fn get(&self, key: &[u8]) -> (r: Result<Option<Vec<u8>>, Failure>) {
        match self.pending_find(key) {
            Some(p) => match &self.pending[p].1 {
                Some(v) => Ok(Some(copy_bytes(v.as_slice()))),
                None => Ok(None),
            },
            None => self.inner.get(key),
        }
    }

    fn get_next(&self, key: &[u8]) -> (r: Result<Option<KV>, Failure>) {
        let ghost pv = pending_view(self.pending@);
        let p = self.pending_next_value(key);
        let c = self.inner_next_unbuffered(key);
        let take_pending = p < self.pending.len() && match &c {
            Some(kv) => !bytes_lt(kv.0.as_slice(), self.pending[p].0.as_slice()),
            None => true,
        };
        proof {
            let o = self.contents();
            let pend = self.pending_map();
            let base = self.inner.contents();
            if p < pv.len() {
                lemma_entry(pv, p as int);
            }
            // Every key of the overlay after `key` is no earlier than each
            // candidate that is taken.
            assert forall|k2: Seq<u8>| #[trigger] o.contains_key(k2) && lex_lt(key@, k2) implies {
                &&& (pend.contains_key(k2) ==> p < pv.len() && !lex_lt(k2, pv[p as int].0))
                &&& (!pend.contains_key(k2) ==> c is Some && !lex_lt(k2, c->Some_0.0@))
            } by {
                if pend.contains_key(k2) {
                    let j = crate::sorted::lemma_key_index(pv, k2);
                    if j < p {
                        assert(pv[j].1 is None);
                    }
                    if j > p {
                        crate::order::lemma_lex_asymmetric(pv[p as int].0, pv[j].0);
                    } else {
                        crate::order::lemma_lex_irreflexive(k2);
                    }
                }
            }
            if take_pending {
                assert forall|k2: Seq<u8>| #[trigger] o.contains_key(k2) && lex_lt(key@, k2) implies !lex_lt(k2, pv[p as int].0) by {
                    if !pend.contains_key(k2) {
                        let ck = c->Some_0.0@;
                        lemma_lex_total(k2, ck);
                        if lex_lt(ck, k2) && lex_lt(k2, pv[p as int].0) {
                            crate::order::lemma_lex_transitive(ck, k2, pv[p as int].0);
                        }
                    }
                }
            } else if c is Some {
                let ck = c->Some_0.0@;
                assert forall|k2: Seq<u8>| #[trigger] o.contains_key(k2) && lex_lt(key@, k2) implies !lex_lt(k2, ck) by {
                    if pend.contains_key(k2) && lex_lt(k2, ck) {
                        lemma_lex_total(k2, pv[p as int].0);
                        if lex_lt(pv[p as int].0, k2) {
                            crate::order::lemma_lex_transitive(pv[p as int].0, k2, ck);
                        }
                        crate::order::lemma_lex_asymmetric(ck, pv[p as int].0);
                    }
                }
            }
        }
        if take_pending {
            let k = copy_bytes(self.pending[p].0.as_slice());
            match &self.pending[p].1 {
                Some(v) => Ok(Some((k, copy_bytes(v.as_slice())))),
                None => Ok(None),
            }
        } else {
            Ok(c)
        }
    }

    fn get_prev(&self, key: &[u8]) -> (r: Result<Option<KV>, Failure>) {
        let ghost pv = pending_view(self.pending@);
        let p = self.pending_prev_value(key);
        let c = self.inner_prev_unbuffered(key);
        let take_pending = p > 0 && match &c {
            Some(kv) => !bytes_lt(self.pending[p - 1].0.as_slice(), kv.0.as_slice()),
            None => true,
        };
        proof {
            let o = self.contents();
            let pend = self.pending_map();
            let base = self.inner.contents();
            if p > 0 {
                lemma_entry(pv, p - 1);
            }
            assert forall|k2: Seq<u8>| #[trigger] o.contains_key(k2) && lex_lt(k2, key@) implies {
                &&& (pend.contains_key(k2) ==> p > 0 && !lex_lt(pv[p - 1].0, k2))
                &&& (!pend.contains_key(k2) ==> c is Some && !lex_lt(c->Some_0.0@, k2))
            } by {
                if pend.contains_key(k2) {
                    let j = crate::sorted::lemma_key_index(pv, k2);
                    if j >= p {
                        assert(pv[j].1 is None);
                    }
                    if j < p - 1 {
                        crate::order::lemma_lex_asymmetric(pv[j].0, pv[p - 1].0);
                    } else {
                        crate::order::lemma_lex_irreflexive(k2);
                    }
                }
            }
            if take_pending {
                assert forall|k2: Seq<u8>| #[trigger] o.contains_key(k2) && lex_lt(k2, key@) implies !lex_lt(pv[p - 1].0, k2) by {
                    if !pend.contains_key(k2) {
                        let ck = c->Some_0.0@;
                        lemma_lex_total(k2, ck);
                        if lex_lt(k2, ck) && lex_lt(pv[p - 1].0, k2) {
                            crate::order::lemma_lex_transitive(pv[p - 1].0, k2, ck);
                        }
                    }
                }
            } else if c is Some {
                let ck = c->Some_0.0@;
                assert forall|k2: Seq<u8>| #[trigger] o.contains_key(k2) && lex_lt(k2, key@) implies !lex_lt(ck, k2) by {
                    if pend.contains_key(k2) && lex_lt(ck, k2) {
                        lemma_lex_total(k2, pv[p - 1].0);
                        if lex_lt(k2, pv[p - 1].0) {
                            crate::order::lemma_lex_transitive(ck, k2, pv[p - 1].0);
                        }
                        crate::order::lemma_lex_asymmetric(pv[p - 1].0, ck);
                    }
                }
            }
        }
        if take_pending {
            let k = copy_bytes(self.pending[p - 1].0.as_slice());
            match &self.pending[p - 1].1 {
                Some(v) => Ok(Some((k, copy_bytes(v.as_slice())))),
                None => Ok(None),
            }
        } else {
            Ok(c)
        }
    }
}

impl<S: Read> Write for BufStore<S> {
    fn put(&mut self, key: Vec<u8>, value: Vec<u8>) -> (r: Result<(), Failure>)
        ensures
            final(self).base() == old(self).base(),
    {
        proof {
            lemma_overlay_put(self.inner.contents(), self.pending_map(), key@, Some(value@));
        }
        let ghost v = Some(value);
        self.buffer(key, Some(value));
        assert(opt_view(v) == Some(v->Some_0@));
        Ok(())
    }

    fn delete(&mut self, key: &[u8]) -> (r: Result<(), Failure>)
        ensures
            final(self).base() == old(self).base(),
    {
        proof {
            lemma_overlay_put(self.inner.contents(), self.pending_map(), key@, None);
        }
        self.buffer(copy_bytes(key), None);
        Ok(())
    }
}

/// A wrapper that passes reads through and keeps a log of every write and
/// delete issued through it, in order.
pub struct RWLog<S> {
    inner: S,
    log: Vec<Pending>,
}

impl<S: Read> RWLog<S> {
    pub closed spec fn base(&self) -> S {
        self.inner
    }

    /// The writes issued so far: a value put, or `None` for a delete.
    pub closed spec fn writes(&self) -> Seq<(Seq<u8>, Option<Seq<u8>>)> {
        pending_view(self.log@)
    }

    pub fn new(inner: S) -> (r: RWLog<S>)
        ensures
            r.base() == inner,
            r.writes() == Seq::<(Seq<u8>, Option<Seq<u8>>)>::empty(),
    {
        let r = RWLog { inner, log: Vec::new() };
        assert(r.writes() =~= seq![]);
        r
    }

    /// Hands back the wrapped store and the log.
    pub fn into_parts(self) -> (r: (S, Vec<Pending>))
        ensures
            r.0 == self.base(),
            pending_view(r.1@) == self.writes(),
    {
        (self.inner, self.log)
    }
}

impl<S: Read> Read for RWLog<S> {
    open spec fn wf(&self) -> bool {
        self.base().wf()
    }

    open spec fn contents(&self) -> Map<Seq<u8>, Seq<u8>> {
        self.base().contents()
    }

    fn get(&self, key: &[u8]) -> (r: Result<Option<Vec<u8>>, Failure>) {
        self.inner.get(key)
    }

    fn get_next(&self, key: &[u8]) -> (r: Result<Option<KV>, Failure>) {
        self.inner.get_next(key)
    }

    fn get_prev(&self, key: &[u8]) -> (r: Result<Option<KV>, Failure>) {
        self.inner.get_prev(key)
    }
}

impl<S: Write> Write for RWLog<S> {
    fn put(&mut self, key: Vec<u8>, value: Vec<u8>) -> (r: Result<(), Failure>)
        ensures
            final(self).writes() == old(self).writes().push((key@, Some(value@))),
    {
        let entry = (copy_bytes(key.as_slice()), Some(copy_bytes(value.as_slice())));
        let ghost before = self.log@;
        let r = self.inner.put(key, value);
        self.log.push(entry);
        assert(pending_view(self.log@) =~= pending_view(before).push((entry.0@, opt_view(entry.1))));
        r
    }

    fn delete(&mut self, key: &[u8]) -> (r: Result<(), Failure>)
        ensures
            final(self).writes() == old(self).writes().push((key@, None)),
    {
        let entry: Pending = (copy_bytes(key), None);
        let ghost before = self.log@;
        let r = self.inner.delete(key);
        self.log.push(entry);
        assert(pending_view(self.log@) =~= pending_view(before).push((entry.0@, None)));
        r
    }
}

/// Keys under `p`, with `p` taken off.
pub open spec fn strip_prefix(m: Map<Seq<u8>, Seq<u8>>, p: Seq<u8>) -> Map<Seq<u8>, Seq<u8>> {
    Map::new(|k: Seq<u8>| m.contains_key(p + k), |k: Seq<u8>| m[p + k])
}

pub open spec fn has_prefix(s: Seq<u8>, p: Seq<u8>) -> bool {
    p.len() <= s.len() && s.take(p.len() as int) == p
}

/// A byte string that sorts between two strings under `p` is under `p` too.
pub proof fn lemma_between_prefixed(p: Seq<u8>, a: Seq<u8>, b: Seq<u8>, n: Seq<u8>)
    requires
        lex_lt(p + a, n) || p + a == n,
        lex_lt(n, p + b) || n == p + b,
    ensures
        has_prefix(n, p),
    decreases p.len(),
{
    if p.len() == 0 {
        assert(n.take(0) =~= p);
    } else {
        let (pa, pb) = (p + a, p + b);
        assert(pa[0] == p[0] && pb[0] == p[0]);
        if n.len() == 0 {
            assert(!lex_lt(pa, n));
            assert(pa.len() > 0);
        } else {
            if n[0] != p[0] {
                if n == pa || n == pb {
                } else {
                    assert(pa[0] < n[0]);
                    assert(n[0] < pb[0]);
                }
            }
            assert(n[0] == p[0]);
            assert(pa.drop_first() =~= p.drop_first() + a);
            assert(pb.drop_first() =~= p.drop_first() + b);
            lemma_between_prefixed(p.drop_first(), a, b, n.drop_first());
            assert(n.take(p.len() as int) =~= seq![n[0]] + n.drop_first().take(p.len() - 1));
            assert(p =~= seq![p[0]] + p.drop_first());
        }
    }
}

/// A view of a store scoped to a key prefix: every key read or written
/// through it is the prefix followed by the key given.
pub struct Store<S> {
    inner: S,
    prefix: Vec<u8>,
}

impl<S: Read> Store<S> {
    pub closed spec fn base(&self) -> S {
        self.inner
    }

    pub closed spec fn prefix(&self) -> Seq<u8> {
        self.prefix@
    }

    /// The whole of `inner`, with no prefix.
    pub fn new(inner: S) -> (r: Store<S>)
        ensures
            r.base() == inner,
            r.prefix() == Seq::<u8>::empty(),
    {
        Store { inner, prefix: Vec::new() }
    }

    /// The part of this store under `sub`.
    pub fn sub(self, sub: &[u8]) -> (r: Store<S>)
        ensures
            r.base() == self.base(),
            r.prefix() == self.prefix() + sub@,
    {
        let Store { inner, mut prefix } = self;
        let mut tail = copy_bytes(sub);
        prefix.append(&mut tail);
        Store { inner, prefix }
    }

    pub fn into_inner(self) -> (r: S)
        ensures
            r == self.base(),
    {
        self.inner
    }

    fn full_key(&self, key: &[u8]) -> (r: Vec<u8>)
        ensures
            r@ == self.prefix() + key@,
    {
        let mut r = copy_bytes(self.prefix.as_slice());
        let mut tail = copy_bytes(key);
        r.append(&mut tail);
        r
    }

    /// Takes the prefix off a key of the store beneath, where it is there.
    fn strip(&self, kv: KV) -> (r: Option<KV>)
        ensures
            r is Some <==> has_prefix(kv.0@, self.prefix()),
            r is Some ==> self.prefix() + r->Some_0.0@ == kv.0@ && r->Some_0.1@ == kv.1@,
    {
        let (k, v) = kv;
        let n = self.prefix.len();
        if k.len() < n {
            return None;
        }
        let head = &k.as_slice()[0..n];
        if !bytes_eq(head, self.prefix.as_slice()) {
            assert(head@ =~= k@.take(n as int));
            return None;
        }
        assert(head@ =~= k@.take(n as int));
        let rest = copy_bytes(&k.as_slice()[n..k.len()]);
        assert(self.prefix() + rest@ =~= k@);
        Some((rest, v))
    }
}

impl<S: Read> Read for Store<S> {
    open spec fn wf(&self) -> bool {
        self.base().wf()
    }

    open spec fn contents(&self) -> Map<Seq<u8>, Seq<u8>> {
        strip_prefix(self.base().contents(), self.prefix())
    }

    fn get(&self, key: &[u8]) -> (r: Result<Option<Vec<u8>>, Failure>) {
        let full = self.full_key(key);
        self.inner.get(full.as_slice())
    }

    fn get_next(&self, key: &[u8]) -> (r: Result<Option<KV>, Failure>) {
        let ghost p = self.prefix();
        let ghost m = self.inner.contents();
        let full = self.full_key(key);
        let next = self.inner.get_next(full.as_slice());
        match next {
            Ok(Some(kv)) => {
                let ghost n = kv.0@;
                let r = self.strip(kv);
                proof {
                    assert forall|k2: Seq<u8>| #[trigger] self.contents().contains_key(k2) && lex_lt(key@, k2)
                        implies (r is Some && !lex_lt(k2, r->Some_0.0@)) by {
                        crate::order::lemma_lex_common_prefix(p, key@, k2);
                        assert(m.contains_key(p + k2));
                        if lex_lt(p + k2, n) {
                        } else {
                            lemma_lex_total(p + k2, n);
                            lemma_between_prefixed(p, key@, k2, n);
                        }
                        if r is Some {
                            crate::order::lemma_lex_common_prefix(p, k2, r->Some_0.0@);
                        }
                    }
                    if r is Some {
                        crate::order::lemma_lex_common_prefix(p, key@, r->Some_0.0@);
                    }
                }
                Ok(r)
            },
            _ => {
                proof {
                    assert forall|k2: Seq<u8>| #[trigger] self.contents().contains_key(k2) implies !lex_lt(key@, k2) by {
                        crate::order::lemma_lex_common_prefix(p, key@, k2);
                        assert(m.contains_key(p + k2));
                    }
                }
                Ok(None)
            },
        }
    }

    fn get_prev(&self, key: &[u8]) -> (r: Result<Option<KV>, Failure>) {
        let ghost p = self.prefix();
        let ghost m = self.inner.contents();
        let full = self.full_key(key);
        let prev = self.inner.get_prev(full.as_slice());
        match prev {
            Ok(Some(kv)) => {
                let ghost n = kv.0@;
                let r = self.strip(kv);
                proof {
                    assert forall|k2: Seq<u8>| #[trigger] self.contents().contains_key(k2) && lex_lt(k2, key@)
                        implies (r is Some && !lex_lt(r->Some_0.0@, k2)) by {
                        crate::order::lemma_lex_common_prefix(p, k2, key@);
                        assert(m.contains_key(p + k2));
                        if lex_lt(n, p + k2) {
                        } else {
                            lemma_lex_total(p + k2, n);
                            lemma_between_prefixed(p, k2, key@, n);
                        }
                        if r is Some {
                            crate::order::lemma_lex_common_prefix(p, r->Some_0.0@, k2);
                        }
                    }
                    if r is Some {
                        crate::order::lemma_lex_common_prefix(p, r->Some_0.0@, key@);
                    }
                }
                Ok(r)
            },
            _ => {
                proof {
                    assert forall|k2: Seq<u8>| #[trigger] self.contents().contains_key(k2) implies !lex_lt(k2, key@) by {
                        crate::order::lemma_lex_common_prefix(p, k2, key@);
                        assert(m.contains_key(p + k2));
                    }
                }
                Ok(None)
            },
        }
    }
}

proof fn lemma_prefix_cancel(p: Seq<u8>, a: Seq<u8>, b: Seq<u8>)
    ensures
        (p + a == p + b) == (a == b),
{
    if p + a == p + b {
        assert(a =~= (p + a).skip(p.len() as int));
        assert(b =~= (p + b).skip(p.len() as int));
    }
}

impl<S: Write> Write for Store<S> {
    fn put(&mut self, key: Vec<u8>, value: Vec<u8>) -> (r: Result<(), Failure>)
        ensures
            final(self).prefix() == old(self).prefix(),
    {
        let full = self.full_key(key.as_slice());
        let ghost (p, k) = (self.prefix(), key@);
        let r = self.inner.put(full, value);
        proof {
            assert forall|k2: Seq<u8>| true implies ((p + k2 == p + k) == (k2 == k)) by {
                lemma_prefix_cancel(p, k2, k);
            }
        }
        assert(self.contents() =~= old(self).contents().insert(key@, value@));
        r
    }

    fn delete(&mut self, key: &[u8]) -> (r: Result<(), Failure>)
        ensures
            final(self).prefix() == old(self).prefix(),
    {
        let full = self.full_key(key);
        let ghost (p, k) = (self.prefix(), key@);
        let r = self.inner.delete(full.as_slice());
        proof {
            assert forall|k2: Seq<u8>| true implies ((p + k2 == p + k) == (k2 == k)) by {
                lemma_prefix_cancel(p, k2, k);
            }
        }
        assert(self.contents() =~= old(self).contents().remove(key@));
        r
    }
}

/// The entries of a range, handed out one at a time in key order.
pub struct Iter {
    entries: Vec<KV>,
    pos: usize,
}

impl Iter {
    pub closed spec fn remaining(&self) -> Seq<(Seq<u8>, Seq<u8>)> {
        kvs_view(self.entries@).skip(self.pos as int)
    }

    pub closed spec fn wf(&self) -> bool {
        self.pos <= self.entries@.len()
    }

    /// The entries of `store` whose keys lie in `[start, end)`.
    pub fn new(store: &MapStore, start: &[u8], end: Option<&[u8]>) -> (r: Iter)
        requires
            store.wf(),
        ensures
            r.wf(),
            keys_sorted(r.remaining()),
            forall|k: Seq<u8>| #[trigger] as_map(r.remaining()).contains_key(k)
                <==> (store.contents().contains_key(k) && !lex_lt(k, start@) && match end {
                    Some(e) => lex_lt(k, e@),
                    None => true,
                }),
            forall|k: Seq<u8>| #[trigger] as_map(r.remaining()).contains_key(k)
                ==> as_map(r.remaining())[k] == store.contents()[k],
    {
        let entries = store.range(start, end);
        let r = Iter { entries, pos: 0 };
        assert(r.remaining() =~= kvs_view(r.entries@));
        r
    }

    /// The next entry, or `None` once all have been handed out.
    pub fn next(&mut self) -> (r: Option<KV>)
        requires
            old(self).wf(),
        ensures
            final(self).wf(),
            old(self).remaining().len() == 0 ==> r is None && final(self).remaining() == old(self).remaining(),
            old(self).remaining().len() > 0 ==> r is Some && kv_view(r->Some_0) == old(self).remaining()[0]
                && final(self).remaining() == old(self).remaining().drop_first(),
    {
        if self.pos >= self.entries.len() {
            return None;
        }
        let e = (copy_bytes(self.entries[self.pos].0.as_slice()), copy_bytes(self.entries[self.pos].1.as_slice()));
        let ghost before = self.remaining();
        self.pos = self.pos + 1;
        assert(self.remaining() =~= before.drop_first());
        Some(e)
    }
}

/// Relies on `Rc::clone`: a new handle to the same allocation, so it holds
/// the same value.
#[verifier::external_body]
fn rc_share<S>(rc: &std::rc::Rc<S>) -> (r: std::rc::Rc<S>)
    ensures
        r == *rc,
{
    std::rc::Rc::clone(rc)
}

/// A store shared read-only among several holders, such as the query
/// handlers that read one proven state. Every handle reads the same contents.
pub struct Shared<S> {
    inner: std::rc::Rc<S>,
}

impl<S: Read> Shared<S> {
    pub closed spec fn base(&self) -> S {
        *self.inner
    }

    pub fn new(store: S) -> (r: Shared<S>)
        ensures
            r.base() == store,
    {
        Shared { inner: std::rc::Rc::new(store) }
    }

    /// Another handle to the same store.
    pub fn share(&self) -> (r: Shared<S>)
        ensures
            r.base() == self.base(),
    {
        Shared { inner: rc_share(&self.inner) }
    }
}

impl<S: Read> Read for Shared<S> {
    open spec fn wf(&self) -> bool {
        self.base().wf()
    }

    open spec fn contents(&self) -> Map<Seq<u8>, Seq<u8>> {
        self.base().contents()
    }

    fn get(&self, key: &[u8]) -> (r: Result<Option<Vec<u8>>, Failure>) {
        let s: &S = &self.inner;
        s.get(key)
    }

    fn get_next(&self, key: &[u8]) -> (r: Result<Option<KV>, Failure>) {
        let s: &S = &self.inner;
        s.get_next(key)
    }

    fn get_prev(&self, key: &[u8]) -> (r: Result<Option<KV>, Failure>) {
        let s: &S = &self.inner;
        s.get_prev(key)
    }
}

} // verus!
