//! The canonical encoding: one byte string per value, the same on every node,
//! readable back from the front of a longer input.
use vstd::prelude::*;
use crate::error::Failure;
use crate::order::lex_lt;
use crate::text::Text;
use crate::ints::{
    be_bytes, be_value, decode_u16, decode_u32, decode_u64, encode_u16, encode_u32, encode_u64,
    lemma_be_bytes_len, lemma_be_bytes_of_value, lemma_be_value_bound, lemma_be_value_of_bytes,
    lemma_lex_is_numeric, pow256,
};

verus! {

/// A type with a canonical byte encoding.
///
/// `parse` says what decoding reads from the front of an input: the value and
/// how many bytes it took. A `terminated` type knows where its encoding ends,
/// so anything may follow it; any other type takes all of its input.
pub trait Codec: Sized + View {
    spec fn encodable(v: Self::V) -> bool;

    spec fn encoding(v: Self::V) -> Seq<u8>;

    spec fn parse(bytes: Seq<u8>) -> Option<(Self::V, nat)>;

    spec fn terminated() -> bool;

    fn is_terminated() -> (r: bool)
        ensures
            r == Self::terminated(),
    ;

    fn encode(&self) -> (r: Result<Vec<u8>, Failure>)
        ensures
            r is Ok <==> Self::encodable(self@),
            r is Ok ==> r->Ok_0@ == Self::encoding(self@),
    ;

    fn decode(bytes: &[u8]) -> (r: Result<(Self, usize), Failure>)
        ensures
            r is Ok <==> Self::parse(bytes@) is Some,
            r is Ok ==> Self::parse(bytes@) == Some((r->Ok_0.0@, r->Ok_0.1 as nat)),
            r is Ok ==> r->Ok_0.1 <= bytes@.len(),
    ;

    /// Decoding an encoding gives the value back, and takes exactly the
    /// encoding's bytes.
    proof fn lemma_round_trip(v: Self::V, rest: Seq<u8>)
        requires
            Self::encodable(v),
            Self::terminated() || rest.len() == 0,
        ensures
            Self::parse(Self::encoding(v) + rest) == Some((v, Self::encoding(v).len())),
    ;
}

proof fn lemma_be_prefix(x: nat, n: nat, rest: Seq<u8>)
    requires
        x < pow256(n),
    ensures
        (be_bytes(x, n) + rest).take(n as int) == be_bytes(x, n),
        be_value((be_bytes(x, n) + rest).take(n as int)) == x,
        be_bytes(x, n).len() == n,
{
    lemma_be_bytes_len(x, n);
    assert((be_bytes(x, n) + rest).take(n as int) =~= be_bytes(x, n));
    lemma_be_value_of_bytes(x, n);
}

impl Codec for u16 {
    open spec fn encodable(v: u16) -> bool {
        true
    }

    open spec fn encoding(v: u16) -> Seq<u8> {
        be_bytes(v as nat, 2)
    }

    open spec fn parse(bytes: Seq<u8>) -> Option<(u16, nat)> {
        if bytes.len() >= 2 {
            Some((be_value(bytes.take(2)) as u16, 2))
        } else {
            None
        }
    }

    open spec fn terminated() -> bool {
        true
    }

    fn is_terminated() -> (r: bool) {
        true
    }

    fn encode(&self) -> (r: Result<Vec<u8>, Failure>) {
        Ok(encode_u16(*self))
    }

    fn decode(bytes: &[u8]) -> (r: Result<(u16, usize), Failure>) {
        let v = decode_u16(bytes)?;
        Ok((v, 2))
    }

    proof fn lemma_round_trip(v: u16, rest: Seq<u8>) {
        reveal_with_fuel(pow256, 9);
        assert(pow256(2) == 65536);
        lemma_be_prefix(v as nat, 2, rest);
    }
}

impl Codec for u32 {
    open spec fn encodable(v: u32) -> bool {
        true
    }

    open spec fn encoding(v: u32) -> Seq<u8> {
        be_bytes(v as nat, 4)
    }

    open spec fn parse(bytes: Seq<u8>) -> Option<(u32, nat)> {
        if bytes.len() >= 4 {
            Some((be_value(bytes.take(4)) as u32, 4))
        } else {
            None
        }
    }

    open spec fn terminated() -> bool {
        true
    }

    fn is_terminated() -> (r: bool) {
        true
    }

    fn encode(&self) -> (r: Result<Vec<u8>, Failure>) {
        Ok(encode_u32(*self))
    }

    fn decode(bytes: &[u8]) -> (r: Result<(u32, usize), Failure>) {
        let v = decode_u32(bytes)?;
        Ok((v, 4))
    }

    proof fn lemma_round_trip(v: u32, rest: Seq<u8>) {
        reveal_with_fuel(pow256, 9);
        assert(pow256(4) == 0x1_0000_0000);
        lemma_be_prefix(v as nat, 4, rest);
    }
}

impl Codec for u64 {
    open spec fn encodable(v: u64) -> bool {
        true
    }

    open spec fn encoding(v: u64) -> Seq<u8> {
        be_bytes(v as nat, 8)
    }

    open spec fn parse(bytes: Seq<u8>) -> Option<(u64, nat)> {
        if bytes.len() >= 8 {
            Some((be_value(bytes.take(8)) as u64, 8))
        } else {
            None
        }
    }

    open spec fn terminated() -> bool {
        true
    }

    fn is_terminated() -> (r: bool) {
        true
    }

    fn encode(&self) -> (r: Result<Vec<u8>, Failure>) {
        Ok(encode_u64(*self))
    }

    fn decode(bytes: &[u8]) -> (r: Result<(u64, usize), Failure>) {
        let v = decode_u64(bytes)?;
        Ok((v, 8))
    }

    proof fn lemma_round_trip(v: u64, rest: Seq<u8>) {
        reveal_with_fuel(pow256, 9);
        assert(pow256(8) == 0x1_0000_0000_0000_0000);
        lemma_be_prefix(v as nat, 8, rest);
    }
}

/// The unit value encodes to nothing: the instruction of a node that takes no
/// arguments.
impl Codec for () {
    open spec fn encodable(v: ()) -> bool {
        true
    }

    open spec fn encoding(v: ()) -> Seq<u8> {
        seq![]
    }

    open spec fn parse(bytes: Seq<u8>) -> Option<((), nat)> {
        Some(((), 0))
    }

    open spec fn terminated() -> bool {
        true
    }

    fn is_terminated() -> (r: bool) {
        true
    }

    fn encode(&self) -> (r: Result<Vec<u8>, Failure>) {
        Ok(Vec::new())
    }

    fn decode(bytes: &[u8]) -> (r: Result<((), usize), Failure>) {
        Ok(((), 0))
    }

    proof fn lemma_round_trip(v: (), rest: Seq<u8>) {
    }
}

/// Where the first `b` stands in `s`, or the length of `s` if none does.
pub open spec fn term_pos(s: Seq<u8>, b: u8) -> nat
    decreases s.len(),
{
    if s.len() == 0 {
        0
    } else if s[0] == b {
        0
    } else {
        1 + term_pos(s.drop_first(), b)
    }
}

pub proof fn lemma_term_pos(s: Seq<u8>, b: u8, k: int)
    requires
        0 <= k <= s.len(),
        forall|j: int| 0 <= j < k ==> s[j] != b,
        k == s.len() || s[k] == b,
    ensures
        term_pos(s, b) == k,
    decreases k,
{
    if k > 0 {
        assert forall|j: int| 0 <= j < k - 1 implies s.drop_first()[j] != b by {
            assert(s.drop_first()[j] == s[j + 1]);
        }
        lemma_term_pos(s.drop_first(), b, k - 1);
    }
}

/// A text value followed by one terminator byte `B`: a key segment after
/// which further segments may follow. The text must not hold `B`.
#[derive(Clone, Debug)]
pub struct ByteTerminatedString<const B: u8, T>(pub T);

impl<const B: u8, T: View> View for ByteTerminatedString<B, T> {
    type V = T::V;

    open spec fn view(&self) -> T::V {
        self.0@
    }
}

impl<const B: u8, T: Text> Codec for ByteTerminatedString<B, T> {
    open spec fn encodable(v: T::V) -> bool {
        !T::text(v).contains(B)
    }

    open spec fn encoding(v: T::V) -> Seq<u8> {
        T::text(v).push(B)
    }

    /// Reads up to the first `B`, or to the end where there is none, and
    /// takes the terminator too.
    open spec fn parse(bytes: Seq<u8>) -> Option<(T::V, nat)> {
        let e = term_pos(bytes, B);
        match T::from_text(bytes.take(e as int)) {
            Some(v) => Some((v, if e < bytes.len() { e + 1 } else { e })),
            None => None,
        }
    }

    open spec fn terminated() -> bool {
        true
    }

    fn is_terminated() -> (r: bool) {
        true
    }

    fn encode(&self) -> (r: Result<Vec<u8>, Failure>) {
        let mut bytes = self.0.to_text();
        let mut i: usize = 0;
        while i < bytes.len()
            invariant
                i <= bytes@.len(),
                bytes@ == T::text(self@),
                forall|j: int| 0 <= j < i ==> bytes@[j] != B,
            decreases bytes.len() - i,
        {
            if bytes[i] == B {
                return Err(Failure::UnencodableVariant);
            }
            i = i + 1;
        }
        bytes.push(B);
        Ok(bytes)
    }

    fn decode(bytes: &[u8]) -> (r: Result<(Self, usize), Failure>) {
        let mut i: usize = 0;
        while i < bytes.len() && bytes[i] != B
            invariant
                i <= bytes@.len(),
                forall|j: int| 0 <= j < i ==> bytes@[j] != B,
            decreases bytes.len() - i,
        {
            i = i + 1;
        }
        proof {
            lemma_term_pos(bytes@, B, i as int);
        }
        let segment = &bytes[0..i];
        assert(segment@ =~= bytes@.take(i as int));
        match T::parse_text(segment) {
            Some(v) => {
                let used = if i < bytes.len() { i + 1 } else { i };
                Ok((ByteTerminatedString(v), used))
            },
            None => Err(Failure::InvalidText),
        }
    }

    proof fn lemma_round_trip(v: T::V, rest: Seq<u8>) {
        let t = T::text(v);
        let all = t.push(B) + rest;
        assert forall|j: int| 0 <= j < t.len() implies all[j] != B by {
            assert(all[j] == t[j]);
        }
        assert(all[t.len() as int] == B);
        lemma_term_pos(all, B, t.len() as int);
        assert(all.take(t.len() as int) =~= t);
        T::lemma_text_round_trip(v);
    }
}

/// A text value that runs to the end of its input: the last segment of a key,
/// or a value on its own.
#[derive(Clone, Debug)]
pub struct EofTerminatedString<T>(pub T);

impl<T: View> View for EofTerminatedString<T> {
    type V = T::V;

    open spec fn view(&self) -> T::V {
        self.0@
    }
}

impl<T> EofTerminatedString<T> {
    pub fn into_inner(self) -> (r: T)
        ensures
            r == self.0,
    {
        self.0
    }
}

impl<T: Text> Codec for EofTerminatedString<T> {
    open spec fn encodable(v: T::V) -> bool {
        true
    }

    open spec fn encoding(v: T::V) -> Seq<u8> {
        T::text(v)
    }

    open spec fn parse(bytes: Seq<u8>) -> Option<(T::V, nat)> {
        match T::from_text(bytes) {
            Some(v) => Some((v, bytes.len())),
            None => None,
        }
    }

    open spec fn terminated() -> bool {
        false
    }

    fn is_terminated() -> (r: bool) {
        false
    }

    fn encode(&self) -> (r: Result<Vec<u8>, Failure>) {
        Ok(self.0.to_text())
    }

    fn decode(bytes: &[u8]) -> (r: Result<(Self, usize), Failure>) {
        match T::parse_text(bytes) {
            Some(v) => Ok((EofTerminatedString(v), bytes.len())),
            None => Err(Failure::InvalidText),
        }
    }

    proof fn lemma_round_trip(v: T::V, rest: Seq<u8>) {
        assert(T::text(v) + rest =~= T::text(v));
        T::lemma_text_round_trip(v);
    }
}

/// Two values one after the other. The first must know its own end.
impl<A: Codec, B: Codec> Codec for (A, B) {
    open spec fn encodable(v: (A::V, B::V)) -> bool {
        A::terminated() && A::encodable(v.0) && B::encodable(v.1)
    }

    open spec fn encoding(v: (A::V, B::V)) -> Seq<u8> {
        A::encoding(v.0) + B::encoding(v.1)
    }

    open spec fn parse(bytes: Seq<u8>) -> Option<((A::V, B::V), nat)> {
        match A::parse(bytes) {
            Some((a, n)) => match B::parse(bytes.skip(n as int)) {
                Some((b, m)) => Some(((a, b), n + m)),
                None => None,
            },
            None => None,
        }
    }

    open spec fn terminated() -> bool {
        B::terminated()
    }

    fn is_terminated() -> (r: bool) {
        B::is_terminated()
    }

    fn encode(&self) -> (r: Result<Vec<u8>, Failure>) {
        if !A::is_terminated() {
            return Err(Failure::UnencodableVariant);
        }
        let mut a = self.0.encode()?;
        let mut b = self.1.encode()?;
        a.append(&mut b);
        Ok(a)
    }

    fn decode(bytes: &[u8]) -> (r: Result<(Self, usize), Failure>) {
        let (a, n) = A::decode(bytes)?;
        let tail = &bytes[n..bytes.len()];
        assert(tail@ =~= bytes@.skip(n as int));
        let (b, m) = B::decode(tail)?;
        Ok(((a, b), n + m))
    }

    proof fn lemma_round_trip(v: (A::V, B::V), rest: Seq<u8>) {
        let (ea, eb) = (A::encoding(v.0), B::encoding(v.1));
        assert(ea + eb + rest =~= ea + (eb + rest));
        A::lemma_round_trip(v.0, eb + rest);
        assert((ea + (eb + rest)).skip(ea.len() as int) =~= eb + rest);
        B::lemma_round_trip(v.1, rest);
    }
}

/// Unsigned integers sort by their encodings exactly as they sort by value.
pub proof fn lemma_u64_order(a: u64, b: u64)
    ensures
        (a < b) == lex_lt(<u64 as Codec>::encoding(a), <u64 as Codec>::encoding(b)),
        (a == b) == (<u64 as Codec>::encoding(a) == <u64 as Codec>::encoding(b)),
{
    reveal_with_fuel(pow256, 9);
    lemma_be_bytes_len(a as nat, 8);
    lemma_be_bytes_len(b as nat, 8);
    lemma_be_value_of_bytes(a as nat, 8);
    lemma_be_value_of_bytes(b as nat, 8);
    lemma_lex_is_numeric(be_bytes(a as nat, 8), be_bytes(b as nat, 8));
}

/// An end-terminated identifier is its own bytes, so the order of encodings
/// is the order of identifiers.
pub proof fn lemma_eof_identifier_order(a: Seq<u8>, b: Seq<u8>)
    ensures
        lex_lt(a, b) == lex_lt(
            EofTerminatedString::<Vec<u8>>::encoding(a),
            EofTerminatedString::<Vec<u8>>::encoding(b),
        ),
{
}

/// Terminated identifiers keep their order, except where one is a proper
/// prefix of the other: there the terminator is compared with the longer
/// identifier's next byte.
pub proof fn lemma_terminated_identifier_order<const B: u8>(a: Seq<u8>, b: Seq<u8>)
    requires
        !a.contains(B),
        !b.contains(B),
        a.len() <= b.len() ==> b.take(a.len() as int) != a,
        b.len() <= a.len() ==> a.take(b.len() as int) != b,
    ensures
        lex_lt(a, b) == lex_lt(
            ByteTerminatedString::<B, Vec<u8>>::encoding(a),
            ByteTerminatedString::<B, Vec<u8>>::encoding(b),
        ),
    decreases a.len(),
{
    if a.len() > 0 && b.len() > 0 {
        assert(a.push(B)[0] == a[0] && b.push(B)[0] == b[0]);
        if a[0] == b[0] {
            assert(a.push(B).drop_first() =~= a.drop_first().push(B));
            assert(b.push(B).drop_first() =~= b.drop_first().push(B));
            let (a1, b1) = (a.drop_first(), b.drop_first());
            assert(!a1.contains(B)) by {
                if a1.contains(B) {
                    let i = choose|i: int| 0 <= i < a1.len() && a1[i] == B;
                    assert(a[i + 1] == B);
                }
            }
            assert(!b1.contains(B)) by {
                if b1.contains(B) {
                    let i = choose|i: int| 0 <= i < b1.len() && b1[i] == B;
                    assert(b[i + 1] == B);
                }
            }
            if a1.len() <= b1.len() && b1.take(a1.len() as int) == a1 {
                assert(b.take(a.len() as int) =~= seq![b[0]] + b1.take(a1.len() as int));
                assert(a =~= seq![a[0]] + a1);
            }
            if b1.len() <= a1.len() && a1.take(b1.len() as int) == b1 {
                assert(a.take(b.len() as int) =~= seq![a[0]] + a1.take(b1.len() as int));
                assert(b =~= seq![b[0]] + b1);
            }
            lemma_terminated_identifier_order::<B>(a1, b1);
        }
    } else if a.len() == 0 {
        assert(b.take(0) =~= a);
    } else {
        assert(a.take(0) =~= b);
    }
}

/// An unsigned integer type that can carry the element count of a sequence.
pub trait LengthPrefix: Codec {
    spec fn count(v: Self::V) -> nat;

    /// The count as a `usize`, where it fits one.
    fn to_count(&self) -> (r: Option<usize>)
        ensures
            r is Some <==> Self::count(self@) <= usize::MAX,
            r is Some ==> r->Some_0 as nat == Self::count(self@),
    ;

    /// The prefix that carries `n`, where the type can hold it.
    fn from_count(n: usize) -> (r: Option<Self>)
        ensures
            r is Some ==> Self::count(r->Some_0@) == n as nat,
    ;
}

impl LengthPrefix for u16 {
    open spec fn count(v: u16) -> nat {
        v as nat
    }

    fn to_count(&self) -> (r: Option<usize>) {
        Some(*self as usize)
    }

    fn from_count(n: usize) -> (r: Option<u16>) {
        if n <= u16::MAX as usize {
            Some(n as u16)
        } else {
            None
        }
    }
}

impl LengthPrefix for u32 {
    open spec fn count(v: u32) -> nat {
        v as nat
    }

    fn to_count(&self) -> (r: Option<usize>) {
        if *self as u64 <= usize::MAX as u64 {
            Some(*self as usize)
        } else {
            None
        }
    }

    fn from_count(n: usize) -> (r: Option<u32>) {
        if n as u64 <= u32::MAX as u64 {
            Some(n as u32)
        } else {
            None
        }
    }
}

impl LengthPrefix for u64 {
    open spec fn count(v: u64) -> nat {
        v as nat
    }

    fn to_count(&self) -> (r: Option<usize>) {
        if *self <= usize::MAX as u64 {
            Some(*self as usize)
        } else {
            None
        }
    }

    fn from_count(n: usize) -> (r: Option<u64>) {
        Some(n as u64)
    }
}

pub open spec fn views<T: View>(s: Seq<T>) -> Seq<T::V> {
    s.map_values(|t: T| t@)
}

/// The encodings of `s`, one after the other.
pub open spec fn encode_all<T: Codec>(s: Seq<T::V>) -> Seq<u8>
    decreases s.len(),
{
    if s.len() == 0 {
        seq![]
    } else {
        encode_all::<T>(s.drop_last()) + T::encoding(s.last())
    }
}

/// `k` values read one after the other from the front of `bytes`.
pub open spec fn parse_many<T: Codec>(bytes: Seq<u8>, k: nat) -> Option<(Seq<T::V>, nat)>
    decreases k,
{
    if k == 0 {
        Some((seq![], 0))
    } else {
        match parse_many::<T>(bytes, (k - 1) as nat) {
            Some((vs, m)) => match T::parse(bytes.skip(m as int)) {
                Some((v, j)) => Some((vs.push(v), m + j)),
                None => None,
            },
            None => None,
        }
    }
}

pub proof fn lemma_parse_many<T: Codec>(s: Seq<T::V>, rest: Seq<u8>)
    requires
        T::terminated(),
        forall|i: int| 0 <= i < s.len() ==> T::encodable(#[trigger] s[i]),
    ensures
        parse_many::<T>(encode_all::<T>(s) + rest, s.len()) == Some((s, encode_all::<T>(s).len())),
    decreases s.len(),
{
    if s.len() > 0 {
        let s0 = s.drop_last();
        let e0 = encode_all::<T>(s0);
        let el = T::encoding(s.last());
        assert(encode_all::<T>(s) + rest =~= e0 + (el + rest));
        lemma_parse_many::<T>(s0, el + rest);
        assert((e0 + (el + rest)).skip(e0.len() as int) =~= el + rest);
        T::lemma_round_trip(s.last(), rest);
        assert(s0.push(s.last()) =~= s);
    }
}

/// Once reading fails at some count, it fails at every larger count.
pub proof fn lemma_parse_many_stops<T: Codec>(bytes: Seq<u8>, k: nat, j: nat)
    requires
        parse_many::<T>(bytes, k) is None,
        j >= k,
    ensures
        parse_many::<T>(bytes, j) is None,
    decreases j,
{
    if j > k {
        lemma_parse_many_stops::<T>(bytes, k, (j - 1) as nat);
    }
}

/// A sequence written as its element count, in the integer type `P`,
/// followed by the elements.
#[derive(Clone, Debug)]
pub struct LengthVec<P, T> {
    len: P,
    values: Vec<T>,
}

impl<P: View, T: View> View for LengthVec<P, T> {
    type V = (P::V, Seq<T::V>);

    closed spec fn view(&self) -> (P::V, Seq<T::V>) {
        (self.len@, views(self.values@))
    }
}

impl<P: LengthPrefix, T: Codec> LengthVec<P, T> {
    /// A sequence with the count given. Encoding fails unless the count is
    /// the number of values.
    pub fn new(len: P, values: Vec<T>) -> (r: Self)
        ensures
            r@ == (len@, views(values@)),
    {
        LengthVec { len, values }
    }

    /// The sequence of `values`, counted in `P`; fails where `P` cannot hold
    /// the count.
    pub fn try_from(values: Vec<T>) -> (r: Result<Self, Failure>)
        ensures
            r is Ok ==> r->Ok_0@.1 == views(values@) && P::count(r->Ok_0@.0) == values@.len(),
            r is Err ==> r == Err::<Self, Failure>(Failure::Overflow),
    {
        match P::from_count(values.len()) {
            Some(len) => Ok(LengthVec { len, values }),
            None => Err(Failure::Overflow),
        }
    }

    pub fn values(&self) -> (r: &Vec<T>)
        ensures
            views(r@) == self@.1,
    {
        &self.values
    }
}

impl<P: LengthPrefix, T: Codec> Codec for LengthVec<P, T> {
    open spec fn encodable(v: (P::V, Seq<T::V>)) -> bool {
        &&& P::terminated()
        &&& T::terminated()
        &&& P::encodable(v.0)
        &&& P::count(v.0) == v.1.len()
        &&& v.1.len() <= usize::MAX
        &&& forall|i: int| 0 <= i < v.1.len() ==> T::encodable(#[trigger] v.1[i])
    }

    open spec fn encoding(v: (P::V, Seq<T::V>)) -> Seq<u8> {
        P::encoding(v.0) + encode_all::<T>(v.1)
    }

    open spec fn parse(bytes: Seq<u8>) -> Option<((P::V, Seq<T::V>), nat)> {
        match P::parse(bytes) {
            Some((l, n)) => if P::count(l) <= usize::MAX {
                match parse_many::<T>(bytes.skip(n as int), P::count(l)) {
                    Some((vs, m)) => Some(((l, vs), n + m)),
                    None => None,
                }
            } else {
                None
            },
            None => None,
        }
    }

    open spec fn terminated() -> bool {
        true
    }

    fn is_terminated() -> (r: bool) {
        true
    }

    fn encode(&self) -> (r: Result<Vec<u8>, Failure>) {
        if !P::is_terminated() || !T::is_terminated() {
            return Err(Failure::UnencodableVariant);
        }
        assert(views(self.values@).len() == self.values@.len());
        let count = match self.len.to_count() {
            Some(c) => c,
            None => return Err(Failure::Overflow),
        };
        if count != self.values.len() {
            return Err(Failure::UnencodableVariant);
        }
        let mut out = self.len.encode()?;
        let ghost head = out@;
        let ghost vs = views(self.values@);
        let mut i: usize = 0;
        assert(vs.take(0) =~= seq![]);
        while i < self.values.len()
            invariant
                i <= self.values@.len(),
                vs == views(self.values@),
                out@ == head + encode_all::<T>(vs.take(i as int)),
                forall|j: int| 0 <= j < i ==> T::encodable(#[trigger] vs[j]),
            decreases self.values.len() - i,
        {
            let mut e = match self.values[i].encode() {
                Ok(e) => e,
                Err(f) => {
                    assert(!T::encodable(vs[i as int]));
                    return Err(f);
                },
            };
            out.append(&mut e);
            assert(vs.take(i + 1).drop_last() =~= vs.take(i as int));
            i = i + 1;
        }
        assert(vs.take(i as int) =~= vs);
        Ok(out)
    }

    fn decode(bytes: &[u8]) -> (r: Result<(Self, usize), Failure>) {
        let (len, n) = P::decode(bytes)?;
        let count = match len.to_count() {
            Some(c) => c,
            None => return Err(Failure::Overflow),
        };
        let tail = &bytes[n..bytes.len()];
        assert(tail@ =~= bytes@.skip(n as int));
        let mut values: Vec<T> = Vec::new();
        let mut used: usize = 0;
        let mut i: usize = 0;
        while i < count
            invariant
                i <= count,
                count as nat == P::count(len@),
                tail@ == bytes@.skip(n as int),
                P::parse(bytes@) == Some((len@, n as nat)),
                used <= tail@.len(),
                parse_many::<T>(tail@, i as nat) == Some((views(values@), used as nat)),
            decreases count - i,
        {
            let rest = &tail[used..tail.len()];
            assert(rest@ =~= tail@.skip(used as int));
            let (v, k) = match T::decode(rest) {
                Ok(x) => x,
                Err(f) => {
                    proof {
                        let k2 = (i + 1) as nat;
                        assert(parse_many::<T>(tail@, k2) is None);
                        lemma_parse_many_stops::<T>(tail@, k2, count as nat);
                        assert(parse_many::<T>(bytes@.skip(n as int), P::count(len@)) is None);
                    }
                    return Err(f);
                },
            };
            let ghost before = values@;
            values.push(v);
            assert(views(values@) =~= views(before).push(v@));
            used = used + k;
            i = i + 1;
        }
        Ok((LengthVec { len, values }, n + used))
    }

    proof fn lemma_round_trip(v: (P::V, Seq<T::V>), rest: Seq<u8>) {
        let ep = P::encoding(v.0);
        let ea = encode_all::<T>(v.1);
        assert(ep + ea + rest =~= ep + (ea + rest));
        P::lemma_round_trip(v.0, ea + rest);
        assert((ep + (ea + rest)).skip(ep.len() as int) =~= ea + rest);
        lemma_parse_many::<T>(v.1, rest);
    }
}

/// A fixed label inside a key, such as `ports/`: it encodes to its own
/// bytes, and decoding checks that the input starts with exactly them.
pub struct FixedString;

impl FixedString {
    /// Appends `label` to `out`.
    pub fn encode_into(label: &[u8], out: &mut Vec<u8>)
        ensures
            final(out)@ == old(out)@ + label@,
    {
        let mut tail = crate::text::copy_bytes(label);
        out.append(&mut tail);
    }

    /// Checks that `bytes` starts with `label`; gives the length of `label`.
    pub fn decode(label: &[u8], bytes: &[u8]) -> (r: Result<usize, Failure>)
        ensures
            r is Ok <==> (label@.len() <= bytes@.len() && bytes@.take(label@.len() as int) == label@),
            r is Ok ==> r->Ok_0 == label@.len(),
            r is Err && bytes@.len() < label@.len() ==> r == Err::<usize, Failure>(Failure::UnexpectedEof),
            r is Err && bytes@.len() >= label@.len() ==> r == Err::<usize, Failure>(Failure::UnexpectedLabel),
    {
        if bytes.len() < label.len() {
            return Err(Failure::UnexpectedEof);
        }
        let head = &bytes[0..label.len()];
        assert(head@ =~= bytes@.take(label@.len() as int));
        if crate::order::bytes_eq(head, label) {
            Ok(label.len())
        } else {
            Err(Failure::UnexpectedLabel)
        }
    }
}

/// Where `term_pos` finds the terminator, it is there and nowhere before.
pub proof fn lemma_term_pos_found(s: Seq<u8>, b: u8)
    ensures
        term_pos(s, b) <= s.len(),
        forall|j: int| 0 <= j < term_pos(s, b) ==> s[j] != b,
        term_pos(s, b) < s.len() ==> s[term_pos(s, b) as int] == b,
    decreases s.len(),
{
    if s.len() > 0 && s[0] != b {
        lemma_term_pos_found(s.drop_first(), b);
        assert forall|j: int| 0 <= j < term_pos(s, b) implies s[j] != b by {
            if j > 0 {
                assert(s[j] == s.drop_first()[j - 1]);
            }
        }
    }
}

/// Decoding an integer and writing it back gives exactly the bytes read.
pub proof fn lemma_u64_reencode(bytes: Seq<u8>)
    requires
        <u64 as Codec>::parse(bytes) is Some,
    ensures
        <u64 as Codec>::parse(bytes)->Some_0.1 == 8,
        <u64 as Codec>::encoding(<u64 as Codec>::parse(bytes)->Some_0.0) == bytes.take(8),
{
    let s = bytes.take(8);
    lemma_be_value_bound(s);
    reveal_with_fuel(pow256, 9);
    lemma_be_bytes_of_value(s);
}

/// Decoding an end-terminated identifier and writing it back gives exactly
/// the bytes read.
pub proof fn lemma_eof_identifier_reencode(bytes: Seq<u8>)
    ensures
        EofTerminatedString::<Vec<u8>>::parse(bytes) == Some((bytes, bytes.len())),
        EofTerminatedString::<Vec<u8>>::encoding(bytes) == bytes,
{
}

/// Decoding a terminated identifier whose terminator is present and writing
/// it back gives exactly the bytes read.
pub proof fn lemma_terminated_identifier_reencode<const B: u8>(bytes: Seq<u8>)
    requires
        bytes.contains(B),
    ensures
        ByteTerminatedString::<B, Vec<u8>>::parse(bytes) is Some,
        ({
            let (v, n) = ByteTerminatedString::<B, Vec<u8>>::parse(bytes)->Some_0;
            ByteTerminatedString::<B, Vec<u8>>::encodable(v)
                && ByteTerminatedString::<B, Vec<u8>>::encoding(v) == bytes.take(n as int)
        }),
{
    lemma_term_pos_found(bytes, B);
    let e = term_pos(bytes, B);
    if e == bytes.len() {
        let i = choose|i: int| 0 <= i < bytes.len() && bytes[i] == B;
        assert(false);
    }
    let t = bytes.take(e as int);
    assert(!t.contains(B)) by {
        if t.contains(B) {
            let i = choose|i: int| 0 <= i < t.len() && t[i] == B;
            assert(bytes[i] == B);
        }
    }
    assert(t.push(B) =~= bytes.take(e as int + 1));
}

} // verus!
