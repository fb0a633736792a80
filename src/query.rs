//! Read-only routing: a query names one node the way a call does, and never
//! changes anything.
use vstd::prelude::*;
use crate::error::Failure;
use crate::store::Read;

verus! {

/// A node that answers queries. `query_spec(node, q, r)` says what querying
/// `q` on `node` may return.
pub trait Query: Sized {
    type Query;

    spec fn query_spec(node: Self, q: Self::Query, r: Result<(), Failure>) -> bool;

    fn query(&self, q: Self::Query) -> (r: Result<(), Failure>)
        ensures
            Self::query_spec(*self, q, r),
    ;
}

impl Query for u64 {
    type Query = ();

    open spec fn query_spec(node: u64, q: (), r: Result<(), Failure>) -> bool {
        r is Ok
    }

    fn query(&self, q: ()) -> (r: Result<(), Failure>) {
        Ok(())
    }
}

impl Query for u32 {
    type Query = ();

    open spec fn query_spec(node: u32, q: (), r: Result<(), Failure>) -> bool {
        r is Ok
    }

    fn query(&self, q: ()) -> (r: Result<(), Failure>) {
        Ok(())
    }
}

impl<T: Query> Query for Option<T> {
    type Query = T::Query;

    open spec fn query_spec(node: Option<T>, q: T::Query, r: Result<(), Failure>) -> bool {
        match node {
            Some(x) => T::query_spec(x, q, r),
            None => r == Err::<(), Failure>(Failure::EmptyOption),
        }
    }

    fn query(&self, q: T::Query) -> (r: Result<(), Failure>) {
        match self {
            Some(inner) => inner.query(q),
            None => Err(Failure::EmptyOption),
        }
    }
}

impl<T: Query> Query for Vec<T> {
    type Query = (u32, T::Query);

    open spec fn query_spec(node: Vec<T>, q: (u32, T::Query), r: Result<(), Failure>) -> bool {
        if (q.0 as int) < node@.len() {
            T::query_spec(node@[q.0 as int], q.1, r)
        } else {
            r == Err::<(), Failure>(Failure::IndexOutOfBounds(q.0 as u64))
        }
    }

    fn query(&self, q: (u32, T::Query)) -> (r: Result<(), Failure>) {
        let (index, sub) = q;
        if (index as usize) < self.len() {
            self[index as usize].query(sub)
        } else {
            Err(Failure::IndexOutOfBounds(index as u64))
        }
    }
}

/// Looks up a keyed entry for a query: its value, or `NotFound` where the
/// key is absent. Nothing is changed.
pub fn query_key<S: Read>(store: &S, key: &[u8]) -> (r: Result<Vec<u8>, Failure>)
    requires
        store.wf(),
    ensures
        store.contents().contains_key(key@) ==> r is Ok && r->Ok_0@ == store.contents()[key@],
        !store.contents().contains_key(key@) ==> r == Err::<Vec<u8>, Failure>(Failure::NotFound),
{
    match store.get(key) {
        Ok(Some(v)) => Ok(v),
        _ => Err(Failure::NotFound),
    }
}

} // verus!
