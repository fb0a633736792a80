//! Finite maps kept as lists of entries sorted by key, and the facts that tie
//! such a list to the map it stands for.
use vstd::prelude::*;
use crate::order::{lex_lt, lemma_lex_asymmetric, lemma_lex_irreflexive, lemma_lex_total, lemma_lex_transitive};

verus! {

pub open spec fn keys_sorted<V>(s: Seq<(Seq<u8>, V)>) -> bool {
    forall|i: int, j: int| 0 <= i < j < s.len() ==> lex_lt(#[trigger] s[i].0, #[trigger] s[j].0)
}

pub open spec fn has_key<V>(s: Seq<(Seq<u8>, V)>, k: Seq<u8>) -> bool {
    exists|i: int| 0 <= i < s.len() && #[trigger] s[i].0 == k
}

pub open spec fn index_of<V>(s: Seq<(Seq<u8>, V)>, k: Seq<u8>) -> int {
    choose|i: int| 0 <= i < s.len() && #[trigger] s[i].0 == k
}

pub open spec fn value_at<V>(s: Seq<(Seq<u8>, V)>, k: Seq<u8>) -> V {
    s[index_of(s, k)].1
}

/// The map that a list of entries stands for.
pub open spec fn as_map<V>(s: Seq<(Seq<u8>, V)>) -> Map<Seq<u8>, V> {
    Map::new(|k: Seq<u8>| has_key(s, k), |k: Seq<u8>| value_at(s, k))
}

/// `k` is the least key of `m` after `key`.
pub open spec fn is_next<V>(m: Map<Seq<u8>, V>, key: Seq<u8>, k: Seq<u8>) -> bool {
    &&& m.contains_key(k)
    &&& lex_lt(key, k)
    &&& forall|k2: Seq<u8>| #[trigger] m.contains_key(k2) && lex_lt(key, k2) ==> !lex_lt(k2, k)
}

/// `k` is the greatest key of `m` before `key`.
pub open spec fn is_prev<V>(m: Map<Seq<u8>, V>, key: Seq<u8>, k: Seq<u8>) -> bool {
    &&& m.contains_key(k)
    &&& lex_lt(k, key)
    &&& forall|k2: Seq<u8>| #[trigger] m.contains_key(k2) && lex_lt(k2, key) ==> !lex_lt(k, k2)
}

pub open spec fn nothing_after<V>(m: Map<Seq<u8>, V>, key: Seq<u8>) -> bool {
    forall|k2: Seq<u8>| #[trigger] m.contains_key(k2) ==> !lex_lt(key, k2)
}

pub open spec fn nothing_before<V>(m: Map<Seq<u8>, V>, key: Seq<u8>) -> bool {
    forall|k2: Seq<u8>| #[trigger] m.contains_key(k2) ==> !lex_lt(k2, key)
}

/// In a sorted list each key stands once, so the map gives its entry's value.
pub proof fn lemma_entry<V>(s: Seq<(Seq<u8>, V)>, i: int)
    requires
        keys_sorted(s),
        0 <= i < s.len(),
    ensures
        as_map(s).contains_key(s[i].0),
        as_map(s)[s[i].0] == s[i].1,
{
    let k = s[i].0;
    assert(has_key(s, k));
    let j = index_of(s, k);
    if j != i {
        if j < i {
            assert(lex_lt(s[j].0, s[i].0));
        } else {
            assert(lex_lt(s[i].0, s[j].0));
        }
        lemma_lex_irreflexive(k);
    }
    assert(value_at(s, k) == s[j].1);
    assert(as_map(s).contains_key(k));
    assert(as_map(s)[k] == value_at(s, k));
}

/// Every key of the map has an entry.
pub proof fn lemma_key_index<V>(s: Seq<(Seq<u8>, V)>, k: Seq<u8>) -> (i: int)
    requires
        keys_sorted(s),
        as_map(s).contains_key(k),
    ensures
        0 <= i < s.len(),
        s[i].0 == k,
        as_map(s)[k] == s[i].1,
{
    let i = choose|i: int| 0 <= i < s.len() && #[trigger] s[i].0 == k;
    lemma_entry(s, i);
    i
}

/// Where `p` splits the keys before `k` from the rest, and `k` is not at `p`,
/// every key from `p` on comes after `k`.
pub proof fn lemma_split<V>(s: Seq<(Seq<u8>, V)>, p: int, k: Seq<u8>)
    requires
        keys_sorted(s),
        0 <= p <= s.len(),
        p < s.len() ==> !lex_lt(s[p].0, k) && s[p].0 != k,
    ensures
        forall|i: int| p <= i < s.len() ==> lex_lt(k, #[trigger] s[i].0),
{
    if p < s.len() {
        lemma_lex_total(s[p].0, k);
        assert forall|i: int| p <= i < s.len() implies lex_lt(k, #[trigger] s[i].0) by {
            if i > p {
                assert(lex_lt(s[p].0, s[i].0));
                lemma_lex_transitive(k, s[p].0, s[i].0);
            }
        }
    }
}

pub proof fn lemma_insert<V>(s: Seq<(Seq<u8>, V)>, p: int, k: Seq<u8>, v: V)
    requires
        keys_sorted(s),
        0 <= p <= s.len(),
        forall|i: int| 0 <= i < p ==> lex_lt(#[trigger] s[i].0, k),
        forall|i: int| p <= i < s.len() ==> lex_lt(k, #[trigger] s[i].0),
    ensures
        keys_sorted(s.insert(p, (k, v))),
        as_map(s.insert(p, (k, v))) == as_map(s).insert(k, v),
{
    let t = s.insert(p, (k, v));
    s.insert_ensures(p, (k, v));
    assert forall|i: int, j: int| 0 <= i < j < t.len() implies lex_lt(#[trigger] t[i].0, #[trigger] t[j].0) by {
        if j < p {
            assert(t[i] == s[i] && t[j] == s[j]);
        } else if j == p {
            assert(t[i] == s[i]);
        } else if i < p {
            assert(t[i] == s[i] && t[j] == s[j - 1]);
            lemma_lex_transitive(s[i].0, k, s[j - 1].0);
        } else if i == p {
            assert(t[j] == s[j - 1]);
        } else {
            assert(t[i] == s[i - 1] && t[j] == s[j - 1]);
        }
    }
    lemma_entry(t, p);
    assert forall|k2: Seq<u8>| #[trigger] as_map(t).contains_key(k2) <==> as_map(s).insert(k, v).contains_key(k2) by {
        if as_map(t).contains_key(k2) && k2 != k {
            let i = lemma_key_index(t, k2);
            if i < p {
                lemma_entry(s, i);
            } else {
                assert(t[i] == s[i - 1]);
                lemma_entry(s, i - 1);
            }
        }
        if as_map(s).contains_key(k2) {
            let i = lemma_key_index(s, k2);
            if i < p {
                lemma_entry(t, i);
            } else {
                assert(t[i + 1] == s[i]);
                lemma_entry(t, i + 1);
            }
        }
    }
    assert forall|k2: Seq<u8>| #[trigger] as_map(t).contains_key(k2) implies as_map(t)[k2] == as_map(s).insert(k, v)[k2] by {
        if k2 != k {
            let i = lemma_key_index(s, k2);
            if i < p {
                lemma_entry(t, i);
            } else {
                assert(t[i + 1] == s[i]);
                lemma_entry(t, i + 1);
            }
        }
    }
    assert(as_map(t) =~= as_map(s).insert(k, v));
}

pub proof fn lemma_update<V>(s: Seq<(Seq<u8>, V)>, p: int, v: V)
    requires
        keys_sorted(s),
        0 <= p < s.len(),
    ensures
        keys_sorted(s.update(p, (s[p].0, v))),
        as_map(s.update(p, (s[p].0, v))) == as_map(s).insert(s[p].0, v),
{
    let k = s[p].0;
    let t = s.update(p, (k, v));
    assert forall|i: int, j: int| 0 <= i < j < t.len() implies lex_lt(#[trigger] t[i].0, #[trigger] t[j].0) by {
        assert(t[i].0 == s[i].0 && t[j].0 == s[j].0);
    }
    lemma_entry(t, p);
    assert forall|k2: Seq<u8>| #[trigger] as_map(t).contains_key(k2) <==> as_map(s).insert(k, v).contains_key(k2) by {
        if as_map(t).contains_key(k2) {
            let i = lemma_key_index(t, k2);
            assert(t[i].0 == s[i].0);
            lemma_entry(s, i);
        }
        if as_map(s).contains_key(k2) {
            let i = lemma_key_index(s, k2);
            assert(t[i].0 == s[i].0);
            lemma_entry(t, i);
        }
    }
    assert forall|k2: Seq<u8>| #[trigger] as_map(t).contains_key(k2) implies as_map(t)[k2] == as_map(s).insert(k, v)[k2] by {
        if k2 != k {
            let i = lemma_key_index(s, k2);
            assert(t[i] == s[i]);
            lemma_entry(t, i);
        }
    }
    assert(as_map(t) =~= as_map(s).insert(k, v));
}

pub proof fn lemma_remove<V>(s: Seq<(Seq<u8>, V)>, p: int)
    requires
        keys_sorted(s),
        0 <= p < s.len(),
    ensures
        keys_sorted(s.remove(p)),
        as_map(s.remove(p)) == as_map(s).remove(s[p].0),
{
    let k = s[p].0;
    let t = s.remove(p);
    s.remove_ensures(p);
    assert forall|i: int, j: int| 0 <= i < j < t.len() implies lex_lt(#[trigger] t[i].0, #[trigger] t[j].0) by {
        let i2 = if i < p { i } else { i + 1 };
        let j2 = if j < p { j } else { j + 1 };
        assert(t[i] == s[i2] && t[j] == s[j2]);
    }
    assert forall|k2: Seq<u8>| #[trigger] as_map(t).contains_key(k2) <==> as_map(s).remove(k).contains_key(k2) by {
        if as_map(t).contains_key(k2) {
            let i = lemma_key_index(t, k2);
            let i2 = if i < p { i } else { i + 1 };
            assert(t[i] == s[i2]);
            lemma_entry(s, i2);
            if k2 == k {
                if i2 < p {
                    assert(lex_lt(s[i2].0, s[p].0));
                } else {
                    assert(lex_lt(s[p].0, s[i2].0));
                }
                lemma_lex_irreflexive(k);
            }
        }
        if as_map(s).contains_key(k2) && k2 != k {
            let i = lemma_key_index(s, k2);
            if i < p {
                assert(t[i] == s[i]);
                lemma_entry(t, i);
            } else {
                assert(t[i - 1] == s[i]);
                lemma_entry(t, i - 1);
            }
        }
    }
    assert forall|k2: Seq<u8>| #[trigger] as_map(t).contains_key(k2) implies as_map(t)[k2] == as_map(s).remove(k)[k2] by {
        let i = lemma_key_index(s, k2);
        if i < p {
            assert(t[i] == s[i]);
            lemma_entry(t, i);
        } else {
            assert(i != p);
            assert(t[i - 1] == s[i]);
            lemma_entry(t, i - 1);
        }
    }
    assert(as_map(t) =~= as_map(s).remove(k));
}

/// Where `p` is the first entry after `key`, it holds the least key after
/// `key`; where there is none, no key comes after `key`.
pub proof fn lemma_next<V>(s: Seq<(Seq<u8>, V)>, key: Seq<u8>, p: int)
    requires
        keys_sorted(s),
        0 <= p <= s.len(),
        forall|i: int| 0 <= i < p ==> !lex_lt(key, #[trigger] s[i].0),
        p < s.len() ==> lex_lt(key, s[p].0),
    ensures
        p < s.len() ==> is_next(as_map(s), key, s[p].0) && as_map(s)[s[p].0] == s[p].1,
        p == s.len() ==> nothing_after(as_map(s), key),
{
    if p < s.len() {
        lemma_entry(s, p);
    }
    assert forall|k2: Seq<u8>| #[trigger] as_map(s).contains_key(k2) && lex_lt(key, k2) implies p < s.len() && !lex_lt(k2, s[p].0) by {
        let j = lemma_key_index(s, k2);
        if j > p {
            lemma_lex_asymmetric(s[p].0, s[j].0);
        } else if j == p {
            lemma_lex_irreflexive(k2);
        }
    }
}

/// Where `p` is the first entry not before `key`, the entry before it holds
/// the greatest key before `key`; where `p` is 0, no key comes before `key`.
pub proof fn lemma_prev<V>(s: Seq<(Seq<u8>, V)>, key: Seq<u8>, p: int)
    requires
        keys_sorted(s),
        0 <= p <= s.len(),
        forall|i: int| 0 <= i < p ==> lex_lt(#[trigger] s[i].0, key),
        p < s.len() ==> !lex_lt(s[p].0, key),
    ensures
        p > 0 ==> is_prev(as_map(s), key, s[p - 1].0) && as_map(s)[s[p - 1].0] == s[p - 1].1,
        p == 0 ==> nothing_before(as_map(s), key),
{
    if p > 0 {
        lemma_entry(s, p - 1);
    }
    assert forall|k2: Seq<u8>| #[trigger] as_map(s).contains_key(k2) && lex_lt(k2, key) implies p > 0 && !lex_lt(s[p - 1].0, k2) by {
        let j = lemma_key_index(s, k2);
        if j >= p {
            if j > p {
                lemma_lex_transitive(s[p].0, s[j].0, key);
            }
        } else if j < p - 1 {
            lemma_lex_asymmetric(s[j].0, s[p - 1].0);
        } else {
            lemma_lex_irreflexive(k2);
        }
    }
}

} // verus!
