//! Fixed-width big-endian integers: the encoding of every integer field and
//! length prefix. The bytes come from `ed`, whose integer impls write
//! `to_be_bytes` and read `from_be_bytes`.
use vstd::prelude::*;
use crate::error::Failure;
use crate::order::lex_lt;

verus! {

#[verifier::external_type_specification]
#[verifier::external_body]
pub struct ExEdError(ed::Error);

pub open spec fn pow256(n: nat) -> nat
    decreases n,
{
    if n == 0 {
        1
    } else {
        256 * pow256((n - 1) as nat)
    }
}

/// The `n` low bytes of `x`, most significant first.
pub open spec fn be_bytes(x: nat, n: nat) -> Seq<u8>
    decreases n,
{
    if n == 0 {
        seq![]
    } else {
        be_bytes(x / 256, (n - 1) as nat).push((x % 256) as u8)
    }
}

/// The number that big-endian bytes stand for.
pub open spec fn be_value(s: Seq<u8>) -> nat
    decreases s.len(),
{
    if s.len() == 0 {
        0
    } else {
        be_value(s.drop_last()) * 256 + s.last() as nat
    }
}

pub proof fn lemma_be_bytes_len(x: nat, n: nat)
    ensures
        be_bytes(x, n).len() == n,
    decreases n,
{
    if n > 0 {
        lemma_be_bytes_len(x / 256, (n - 1) as nat);
    }
}

/// Reading back the bytes of a number that fits gives the number.
pub proof fn lemma_be_value_of_bytes(x: nat, n: nat)
    requires
        x < pow256(n),
    ensures
        be_value(be_bytes(x, n)) == x,
    decreases n,
{
    if n > 0 {
        let s = be_bytes(x, n);
        assert(s.drop_last() =~= be_bytes(x / 256, (n - 1) as nat));
        assert(x / 256 < pow256((n - 1) as nat)) by (nonlinear_arith)
            requires
                x < 256 * pow256((n - 1) as nat),
        ;
        lemma_be_value_of_bytes(x / 256, (n - 1) as nat);
        assert(x == (x / 256) * 256 + x % 256) by (nonlinear_arith);
    }
}

proof fn lemma_lex_push(a: Seq<u8>, b: Seq<u8>, x: u8, y: u8)
    requires
        a.len() == b.len(),
    ensures
        lex_lt(a.push(x), b.push(y)) == (lex_lt(a, b) || (a == b && x < y)),
    decreases a.len(),
{
    let (ax, by) = (a.push(x), b.push(y));
    assert(ax[0] == if a.len() == 0 { x } else { a[0] });
    assert(by[0] == if b.len() == 0 { y } else { b[0] });
    if a.len() == 0 {
        assert(a =~= b);
        assert(ax.drop_first() =~= seq![]);
        assert(by.drop_first() =~= seq![]);
        assert(!lex_lt(ax.drop_first(), by.drop_first()));
        assert(!lex_lt(a, b));
    } else {
        assert(ax.drop_first() =~= a.drop_first().push(x));
        assert(by.drop_first() =~= b.drop_first().push(y));
        lemma_lex_push(a.drop_first(), b.drop_first(), x, y);
        if a[0] == b[0] && a.drop_first() == b.drop_first() {
            assert(a =~= seq![a[0]] + a.drop_first());
            assert(b =~= seq![b[0]] + b.drop_first());
        }
        if a == b {
            assert(a.drop_first() == b.drop_first());
        }
    }
}

/// For byte strings of one length, the store's order is the order of the
/// numbers they stand for.
pub proof fn lemma_lex_is_numeric(a: Seq<u8>, b: Seq<u8>)
    requires
        a.len() == b.len(),
    ensures
        lex_lt(a, b) == (be_value(a) < be_value(b)),
        (a == b) == (be_value(a) == be_value(b)),
    decreases a.len(),
{
    if a.len() == 0 {
        assert(a =~= b);
    } else {
        let (a0, b0) = (a.drop_last(), b.drop_last());
        let (x, y) = (a.last(), b.last());
        assert(a =~= a0.push(x));
        assert(b =~= b0.push(y));
        lemma_lex_push(a0, b0, x, y);
        lemma_lex_is_numeric(a0, b0);
        let (va, vb) = (be_value(a0), be_value(b0));
        assert(be_value(a) == va * 256 + x);
        assert(be_value(b) == vb * 256 + y);
        if va < vb {
            assert(va * 256 + x < vb * 256 + y) by (nonlinear_arith)
                requires
                    va < vb,
                    x < 256,
            ;
        } else if vb < va {
            assert(vb * 256 + y < va * 256 + x) by (nonlinear_arith)
                requires
                    vb < va,
                    y < 256,
            ;
        }
        if a == b {
            assert(a0 == b0);
        }
    }
}

/// Relies on ed's `Encode` for `u16`: the two bytes of `to_be_bytes`.
#[verifier::external_body]
fn ed_encode_u16(x: u16) -> (r: Result<Vec<u8>, ed::Error>)
    ensures
        r is Ok,
        r is Ok ==> r->Ok_0@ == be_bytes(x as nat, 2),
{
    ed::Encode::encode(&x)
}

/// Relies on ed's `Encode` for `u32`: the four bytes of `to_be_bytes`.
#[verifier::external_body]
fn ed_encode_u32(x: u32) -> (r: Result<Vec<u8>, ed::Error>)
    ensures
        r is Ok,
        r is Ok ==> r->Ok_0@ == be_bytes(x as nat, 4),
{
    ed::Encode::encode(&x)
}

/// Relies on ed's `Encode` for `u64`: the eight bytes of `to_be_bytes`.
#[verifier::external_body]
fn ed_encode_u64(x: u64) -> (r: Result<Vec<u8>, ed::Error>)
    ensures
        r is Ok,
        r is Ok ==> r->Ok_0@ == be_bytes(x as nat, 8),
{
    ed::Encode::encode(&x)
}

/// Relies on ed's `Decode` for `u16`: `read_exact` of two bytes, which fails
/// on shorter input, then `from_be_bytes`.
#[verifier::external_body]
fn ed_decode_u16(bytes: &[u8]) -> (r: Result<u16, ed::Error>)
    ensures
        r is Ok <==> bytes@.len() >= 2,
        r matches Ok(v) ==> v as nat == be_value(bytes@.take(2)),
{
    <u16 as ed::Decode>::decode(bytes)
}

/// Relies on ed's `Decode` for `u32`: `read_exact` of four bytes, which fails
/// on shorter input, then `from_be_bytes`.
#[verifier::external_body]
fn ed_decode_u32(bytes: &[u8]) -> (r: Result<u32, ed::Error>)
    ensures
        r is Ok <==> bytes@.len() >= 4,
        r matches Ok(v) ==> v as nat == be_value(bytes@.take(4)),
{
    <u32 as ed::Decode>::decode(bytes)
}

/// Relies on ed's `Decode` for `u64`: `read_exact` of eight bytes, which fails
/// on shorter input, then `from_be_bytes`.
#[verifier::external_body]
fn ed_decode_u64(bytes: &[u8]) -> (r: Result<u64, ed::Error>)
    ensures
        r is Ok <==> bytes@.len() >= 8,
        r matches Ok(v) ==> v as nat == be_value(bytes@.take(8)),
{
    <u64 as ed::Decode>::decode(bytes)
}

/// The big-endian bytes of `x`.
pub fn encode_u16(x: u16) -> (r: Vec<u8>)
    ensures
        r@ == be_bytes(x as nat, 2),
{
    match ed_encode_u16(x) {
        Ok(b) => b,
        Err(_) => {
            assert(false);
            Vec::new()
        },
    }
}

/// The big-endian bytes of `x`.
pub fn encode_u32(x: u32) -> (r: Vec<u8>)
    ensures
        r@ == be_bytes(x as nat, 4),
{
    match ed_encode_u32(x) {
        Ok(b) => b,
        Err(_) => {
            assert(false);
            Vec::new()
        },
    }
}

/// The big-endian bytes of `x`.
pub fn encode_u64(x: u64) -> (r: Vec<u8>)
    ensures
        r@ == be_bytes(x as nat, 8),
{
    match ed_encode_u64(x) {
        Ok(b) => b,
        Err(_) => {
            assert(false);
            Vec::new()
        },
    }
}

/// Reads a `u16` from the front of `bytes`.
pub fn decode_u16(bytes: &[u8]) -> (r: Result<u16, Failure>)
    ensures
        match r {
            Ok(v) => bytes@.len() >= 2 && v as nat == be_value(bytes@.take(2)),
            Err(e) => bytes@.len() < 2 && e == Failure::UnexpectedEof,
        },
{
    match ed_decode_u16(bytes) {
        Ok(v) => Ok(v),
        Err(_) => Err(Failure::UnexpectedEof),
    }
}

/// Reads a `u32` from the front of `bytes`.
pub fn decode_u32(bytes: &[u8]) -> (r: Result<u32, Failure>)
    ensures
        match r {
            Ok(v) => bytes@.len() >= 4 && v as nat == be_value(bytes@.take(4)),
            Err(e) => bytes@.len() < 4 && e == Failure::UnexpectedEof,
        },
{
    match ed_decode_u32(bytes) {
        Ok(v) => Ok(v),
        Err(_) => Err(Failure::UnexpectedEof),
    }
}

/// Reads a `u64` from the front of `bytes`.
pub fn decode_u64(bytes: &[u8]) -> (r: Result<u64, Failure>)
    ensures
        match r {
            Ok(v) => bytes@.len() >= 8 && v as nat == be_value(bytes@.take(8)),
            Err(e) => bytes@.len() < 8 && e == Failure::UnexpectedEof,
        },
{
    match ed_decode_u64(bytes) {
        Ok(v) => Ok(v),
        Err(_) => Err(Failure::UnexpectedEof),
    }
}

pub proof fn lemma_be_value_bound(s: Seq<u8>)
    ensures
        be_value(s) < pow256(s.len()),
    decreases s.len(),
{
    if s.len() > 0 {
        lemma_be_value_bound(s.drop_last());
        let v = be_value(s.drop_last());
        let p = pow256((s.len() - 1) as nat);
        assert(v * 256 + s.last() < 256 * p) by (nonlinear_arith)
            requires
                v < p,
                s.last() < 256,
        ;
    }
}

/// Writing back the number that bytes stand for gives the same bytes.
pub proof fn lemma_be_bytes_of_value(s: Seq<u8>)
    ensures
        be_bytes(be_value(s), s.len()) == s,
    decreases s.len(),
{
    if s.len() > 0 {
        let s0 = s.drop_last();
        let x = be_value(s);
        let v = be_value(s0);
        assert(x == v * 256 + s.last());
        assert(x / 256 == v && x % 256 == s.last()) by (nonlinear_arith)
            requires
                x == v * 256 + s.last(),
                s.last() < 256,
        ;
        lemma_be_bytes_of_value(s0);
        assert(s =~= s0.push(s.last()));
    }
}

} // verus!
