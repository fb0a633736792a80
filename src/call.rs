//! Routing of encoded calls into nested state: each container takes an
//! instruction that names one child, and each leaf takes an instruction for
//! itself.
use vstd::prelude::*;
use crate::encoding::Codec;
use crate::error::Failure;

verus! {

/// Method instructions are told from field instructions by their leading
/// byte: field instructions lead with a byte below this offset, method
/// instructions with their own leading byte raised by it.
pub const PREFIX_OFFSET: u8 = 0x40;

/// A node that takes calls.
///
/// `call_spec(before, c, after, r)` says what calling `c` on `before` may
/// return and leave behind.
pub trait Call: Sized {
    type Call;

    spec fn call_spec(before: Self, c: Self::Call, after: Self, r: Result<(), Failure>) -> bool;

    fn call(&mut self, c: Self::Call) -> (r: Result<(), Failure>)
        ensures
            Self::call_spec(*old(self), c, *final(self), r),
    ;
}

impl Call for () {
    type Call = ();

    open spec fn call_spec(before: (), c: (), after: (), r: Result<(), Failure>) -> bool {
        r is Ok
    }

    fn call(&mut self, c: ()) -> (r: Result<(), Failure>) {
        Ok(())
    }
}

impl Call for bool {
    type Call = ();

    open spec fn call_spec(before: bool, c: (), after: bool, r: Result<(), Failure>) -> bool {
        r is Ok && after == before
    }

    fn call(&mut self, c: ()) -> (r: Result<(), Failure>) {
        Ok(())
    }
}

impl Call for u8 {
    type Call = ();

    open spec fn call_spec(before: u8, c: (), after: u8, r: Result<(), Failure>) -> bool {
        r is Ok && after == before
    }

    fn call(&mut self, c: ()) -> (r: Result<(), Failure>) {
        Ok(())
    }
}

impl Call for u16 {
    type Call = ();

    open spec fn call_spec(before: u16, c: (), after: u16, r: Result<(), Failure>) -> bool {
        r is Ok && after == before
    }

    fn call(&mut self, c: ()) -> (r: Result<(), Failure>) {
        Ok(())
    }
}

impl Call for u32 {
    type Call = ();

    open spec fn call_spec(before: u32, c: (), after: u32, r: Result<(), Failure>) -> bool {
        r is Ok && after == before
    }

    fn call(&mut self, c: ()) -> (r: Result<(), Failure>) {
        Ok(())
    }
}

impl Call for u64 {
    type Call = ();

    open spec fn call_spec(before: u64, c: (), after: u64, r: Result<(), Failure>) -> bool {
        r is Ok && after == before
    }

    fn call(&mut self, c: ()) -> (r: Result<(), Failure>) {
        Ok(())
    }
}

/// An optional node passes the call to what it holds, and fails when it
/// holds nothing.
impl<T: Call> Call for Option<T> {
    type Call = T::Call;

    open spec fn call_spec(before: Option<T>, c: T::Call, after: Option<T>, r: Result<(), Failure>) -> bool {
        match before {
            Some(x) => after is Some && T::call_spec(x, c, after->Some_0, r),
            None => after is None && r == Err::<(), Failure>(Failure::EmptyOption),
        }
    }

    fn call(&mut self, c: T::Call) -> (r: Result<(), Failure>) {
        match self {
            Some(inner) => inner.call(c),
            None => Err(Failure::EmptyOption),
        }
    }
}

/// A fallible node passes the call to the value it holds, and fails with the
/// description of the error it holds otherwise.
impl<T: Call> Call for Result<T, String> {
    type Call = T::Call;

    open spec fn call_spec(before: Result<T, String>, c: T::Call, after: Result<T, String>, r: Result<(), Failure>) -> bool {
        match before {
            Ok(x) => after is Ok && T::call_spec(x, c, after->Ok_0, r),
            Err(e) => after == before && (r matches Err(Failure::Held(m)) && m@ == e@),
        }
    }

    fn call(&mut self, c: T::Call) -> (r: Result<(), Failure>) {
        match self {
            Ok(inner) => inner.call(c),
            Err(e) => Err(Failure::Held(e.clone())),
        }
    }
}

/// A sequence takes an index and the instruction for the element there; an
/// index past the end fails and touches nothing.
impl<T: Call> Call for Vec<T> {
    type Call = (u32, T::Call);

    open spec fn call_spec(before: Vec<T>, c: (u32, T::Call), after: Vec<T>, r: Result<(), Failure>) -> bool {
        let i = c.0 as int;
        if i < before@.len() {
            &&& after@.len() == before@.len()
            &&& forall|j: int| 0 <= j < before@.len() && j != i ==> after@[j] == before@[j]
            &&& T::call_spec(before@[i], c.1, after@[i], r)
        } else {
            after == before && r == Err::<(), Failure>(Failure::IndexOutOfBounds(c.0 as u64))
        }
    }

    fn call(&mut self, c: (u32, T::Call)) -> (r: Result<(), Failure>) {
        let (index, sub) = c;
        let i = index as usize;
        if i < self.len() {
            let elem = &mut self[i];
            elem.call(sub)
        } else {
            Err(Failure::IndexOutOfBounds(index as u64))
        }
    }
}

impl<T: Call> Call for (T,) {
    type Call = T::Call;

    open spec fn call_spec(before: (T,), c: T::Call, after: (T,), r: Result<(), Failure>) -> bool {
        T::call_spec(before.0, c, after.0, r)
    }

    fn call(&mut self, c: T::Call) -> (r: Result<(), Failure>) {
        self.0.call(c)
    }
}

/// The instruction of a pair: which member, and the instruction for it.
pub enum Tuple2Call<T: Call, U: Call> {
    Field0(T::Call),
    Field1(U::Call),
}

/// What a pair instruction stands for: the member chosen and the meaning of
/// the instruction for it.
pub enum Choice2<A, B> {
    Field0(A),
    Field1(B),
}

impl<T: Call, U: Call> View for Tuple2Call<T, U> where T::Call: View, U::Call: View {
    type V = Choice2<<T::Call as View>::V, <U::Call as View>::V>;

    open spec fn view(&self) -> Self::V {
        match self {
            Tuple2Call::Field0(c) => Choice2::Field0(c@),
            Tuple2Call::Field1(c) => Choice2::Field1(c@),
        }
    }
}

/// A pair instruction is written as the index of the member, one byte, then
/// the member's instruction.
impl<T: Call, U: Call> Codec for Tuple2Call<T, U> where T::Call: Codec, U::Call: Codec {
    open spec fn encodable(v: Self::V) -> bool {
        match v {
            Choice2::Field0(c) => <T::Call as Codec>::encodable(c),
            Choice2::Field1(c) => <U::Call as Codec>::encodable(c),
        }
    }

    open spec fn encoding(v: Self::V) -> Seq<u8> {
        match v {
            Choice2::Field0(c) => seq![0u8] + <T::Call as Codec>::encoding(c),
            Choice2::Field1(c) => seq![1u8] + <U::Call as Codec>::encoding(c),
        }
    }

    open spec fn parse(bytes: Seq<u8>) -> Option<(Self::V, nat)> {
        if bytes.len() == 0 {
            None
        } else if bytes[0] == 0 {
            match <T::Call as Codec>::parse(bytes.skip(1)) {
                Some((c, n)) => Some((Choice2::Field0(c), n + 1)),
                None => None,
            }
        } else if bytes[0] == 1 {
            match <U::Call as Codec>::parse(bytes.skip(1)) {
                Some((c, n)) => Some((Choice2::Field1(c), n + 1)),
                None => None,
            }
        } else {
            None
        }
    }

    open spec fn terminated() -> bool {
        <T::Call as Codec>::terminated() && <U::Call as Codec>::terminated()
    }

    fn is_terminated() -> (r: bool) {
        <T::Call as Codec>::is_terminated() && <U::Call as Codec>::is_terminated()
    }

    fn encode(&self) -> (r: Result<Vec<u8>, Failure>) {
        let (tag, mut body) = match self {
            Tuple2Call::Field0(c) => (0u8, c.encode()?),
            Tuple2Call::Field1(c) => (1u8, c.encode()?),
        };
        let mut out = vec![tag];
        out.append(&mut body);
        assert(out@ =~= Self::encoding(self@));
        Ok(out)
    }

    fn decode(bytes: &[u8]) -> (r: Result<(Self, usize), Failure>) {
        if bytes.len() == 0 {
            return Err(Failure::UnexpectedEof);
        }
        let tail = &bytes[1..bytes.len()];
        assert(tail@ =~= bytes@.skip(1));
        if bytes[0] == 0 {
            let (c, n) = <T::Call as Codec>::decode(tail)?;
            Ok((Tuple2Call::Field0(c), n + 1))
        } else if bytes[0] == 1 {
            let (c, n) = <U::Call as Codec>::decode(tail)?;
            Ok((Tuple2Call::Field1(c), n + 1))
        } else {
            Err(Failure::UnexpectedByte(bytes[0]))
        }
    }

    proof fn lemma_round_trip(v: Self::V, rest: Seq<u8>) {
        match v {
            Choice2::Field0(c) => {
                assert((seq![0u8] + <T::Call as Codec>::encoding(c) + rest).skip(1) =~= <T::Call as Codec>::encoding(c) + rest);
                <T::Call as Codec>::lemma_round_trip(c, rest);
            },
            Choice2::Field1(c) => {
                assert((seq![1u8] + <U::Call as Codec>::encoding(c) + rest).skip(1) =~= <U::Call as Codec>::encoding(c) + rest);
                <U::Call as Codec>::lemma_round_trip(c, rest);
            },
        }
    }
}

impl<T: Call, U: Call> Call for (T, U) {
    type Call = Tuple2Call<T, U>;

    open spec fn call_spec(before: (T, U), c: Tuple2Call<T, U>, after: (T, U), r: Result<(), Failure>) -> bool {
        match c {
            Tuple2Call::Field0(c0) => after.1 == before.1 && T::call_spec(before.0, c0, after.0, r),
            Tuple2Call::Field1(c1) => after.0 == before.0 && U::call_spec(before.1, c1, after.1, r),
        }
    }

    fn call(&mut self, c: Tuple2Call<T, U>) -> (r: Result<(), Failure>) {
        match c {
            Tuple2Call::Field0(c0) => self.0.call(c0),
            Tuple2Call::Field1(c1) => self.1.call(c1),
        }
    }
}

/// The instruction of a triple: which member, and the instruction for it.
pub enum Tuple3Call<T: Call, U: Call, V: Call> {
    Field0(T::Call),
    Field1(U::Call),
    Field2(V::Call),
}

/// What a triple instruction stands for: the member chosen and the meaning
/// of the instruction for it.
pub enum Choice3<A, B, C> {
    Field0(A),
    Field1(B),
    Field2(C),
}

impl<T: Call, U: Call, V: Call> View for Tuple3Call<T, U, V> where T::Call: View, U::Call: View, V::Call: View {
    type V = Choice3<<T::Call as View>::V, <U::Call as View>::V, <V::Call as View>::V>;

    open spec fn view(&self) -> Self::V {
        match self {
            Tuple3Call::Field0(c) => Choice3::Field0(c@),
            Tuple3Call::Field1(c) => Choice3::Field1(c@),
            Tuple3Call::Field2(c) => Choice3::Field2(c@),
        }
    }
}

/// A triple instruction is written as the index of the member, one byte,
/// then the member's instruction.
impl<T: Call, U: Call, V: Call> Codec for Tuple3Call<T, U, V> where T::Call: Codec, U::Call: Codec, V::Call: Codec {
    open spec fn encodable(v: Self::V) -> bool {
        match v {
            Choice3::Field0(c) => <T::Call as Codec>::encodable(c),
            Choice3::Field1(c) => <U::Call as Codec>::encodable(c),
            Choice3::Field2(c) => <V::Call as Codec>::encodable(c),
        }
    }

    open spec fn encoding(v: Self::V) -> Seq<u8> {
        match v {
            Choice3::Field0(c) => seq![0u8] + <T::Call as Codec>::encoding(c),
            Choice3::Field1(c) => seq![1u8] + <U::Call as Codec>::encoding(c),
            Choice3::Field2(c) => seq![2u8] + <V::Call as Codec>::encoding(c),
        }
    }

    open spec fn parse(bytes: Seq<u8>) -> Option<(Self::V, nat)> {
        if bytes.len() == 0 {
            None
        } else if bytes[0] == 0 {
            match <T::Call as Codec>::parse(bytes.skip(1)) {
                Some((c, n)) => Some((Choice3::Field0(c), n + 1)),
                None => None,
            }
        } else if bytes[0] == 1 {
            match <U::Call as Codec>::parse(bytes.skip(1)) {
                Some((c, n)) => Some((Choice3::Field1(c), n + 1)),
                None => None,
            }
        } else if bytes[0] == 2 {
            match <V::Call as Codec>::parse(bytes.skip(1)) {
                Some((c, n)) => Some((Choice3::Field2(c), n + 1)),
                None => None,
            }
        } else {
            None
        }
    }

    open spec fn terminated() -> bool {
        <T::Call as Codec>::terminated() && <U::Call as Codec>::terminated() && <V::Call as Codec>::terminated()
    }

    fn is_terminated() -> (r: bool) {
        <T::Call as Codec>::is_terminated() && <U::Call as Codec>::is_terminated() && <V::Call as Codec>::is_terminated()
    }

    fn encode(&self) -> (r: Result<Vec<u8>, Failure>) {
        let (tag, mut body) = match self {
            Tuple3Call::Field0(c) => (0u8, c.encode()?),
            Tuple3Call::Field1(c) => (1u8, c.encode()?),
            Tuple3Call::Field2(c) => (2u8, c.encode()?),
        };
        let mut out = vec![tag];
        out.append(&mut body);
        assert(out@ =~= Self::encoding(self@));
        Ok(out)
    }

    fn decode(bytes: &[u8]) -> (r: Result<(Self, usize), Failure>) {
        if bytes.len() == 0 {
            return Err(Failure::UnexpectedEof);
        }
        let tail = &bytes[1..bytes.len()];
        assert(tail@ =~= bytes@.skip(1));
        if bytes[0] == 0 {
            let (c, n) = <T::Call as Codec>::decode(tail)?;
            Ok((Tuple3Call::Field0(c), n + 1))
        } else if bytes[0] == 1 {
            let (c, n) = <U::Call as Codec>::decode(tail)?;
            Ok((Tuple3Call::Field1(c), n + 1))
        } else if bytes[0] == 2 {
            let (c, n) = <V::Call as Codec>::decode(tail)?;
            Ok((Tuple3Call::Field2(c), n + 1))
        } else {
            Err(Failure::UnexpectedByte(bytes[0]))
        }
    }

    proof fn lemma_round_trip(v: Self::V, rest: Seq<u8>) {
        match v {
            Choice3::Field0(c) => {
                assert((seq![0u8] + <T::Call as Codec>::encoding(c) + rest).skip(1) =~= <T::Call as Codec>::encoding(c)
                    + rest);
                <T::Call as Codec>::lemma_round_trip(c, rest);
            },
            Choice3::Field1(c) => {
                assert((seq![1u8] + <U::Call as Codec>::encoding(c) + rest).skip(1) =~= <U::Call as Codec>::encoding(c)
                    + rest);
                <U::Call as Codec>::lemma_round_trip(c, rest);
            },
            Choice3::Field2(c) => {
                assert((seq![2u8] + <V::Call as Codec>::encoding(c) + rest).skip(1) =~= <V::Call as Codec>::encoding(c)
                    + rest);
                <V::Call as Codec>::lemma_round_trip(c, rest);
            },
        }
    }
}

impl<T: Call, U: Call, V: Call> Call for (T, U, V) {
    type Call = Tuple3Call<T, U, V>;

    open spec fn call_spec(before: (T, U, V), c: Tuple3Call<T, U, V>, after: (T, U, V), r: Result<(), Failure>) -> bool {
        match c {
            Tuple3Call::Field0(c0) => after.1 == before.1 && after.2 == before.2 && T::call_spec(before.0, c0, after.0, r),
            Tuple3Call::Field1(c1) => after.0 == before.0 && after.2 == before.2 && U::call_spec(before.1, c1, after.1, r),
            Tuple3Call::Field2(c2) => after.0 == before.0 && after.1 == before.1 && V::call_spec(before.2, c2, after.2, r),
        }
    }

    fn call(&mut self, c: Tuple3Call<T, U, V>) -> (r: Result<(), Failure>) {
        match c {
            Tuple3Call::Field0(c0) => self.0.call(c0),
            Tuple3Call::Field1(c1) => self.1.call(c1),
            Tuple3Call::Field2(c2) => self.2.call(c2),
        }
    }
}

/// The instruction of a quadruple: which member, and the instruction for it.
pub enum Tuple4Call<T: Call, U: Call, V: Call, W: Call> {
    Field0(T::Call),
    Field1(U::Call),
    Field2(V::Call),
    Field3(W::Call),
}

/// What a quadruple instruction stands for: the member chosen and the meaning
/// of the instruction for it.
pub enum Choice4<A, B, C, D> {
    Field0(A),
    Field1(B),
    Field2(C),
    Field3(D),
}

impl<T: Call, U: Call, V: Call, W: Call> View for Tuple4Call<T, U, V, W> where T::Call: View, U::Call: View, V::Call: View, W::Call: View {
    type V = Choice4<<T::Call as View>::V, <U::Call as View>::V, <V::Call as View>::V, <W::Call as View>::V>;

    open spec fn view(&self) -> Self::V {
        match self {
            Tuple4Call::Field0(c) => Choice4::Field0(c@),
            Tuple4Call::Field1(c) => Choice4::Field1(c@),
            Tuple4Call::Field2(c) => Choice4::Field2(c@),
            Tuple4Call::Field3(c) => Choice4::Field3(c@),
        }
    }
}

/// A quadruple instruction is written as the index of the member, one byte,
/// then the member's instruction.
impl<T: Call, U: Call, V: Call, W: Call> Codec for Tuple4Call<T, U, V, W> where T::Call: Codec, U::Call: Codec, V::Call: Codec, W::Call: Codec {
    open spec fn encodable(v: Self::V) -> bool {
        match v {
            Choice4::Field0(c) => <T::Call as Codec>::encodable(c),
            Choice4::Field1(c) => <U::Call as Codec>::encodable(c),
            Choice4::Field2(c) => <V::Call as Codec>::encodable(c),
            Choice4::Field3(c) => <W::Call as Codec>::encodable(c),
        }
    }

    open spec fn encoding(v: Self::V) -> Seq<u8> {
        match v {
            Choice4::Field0(c) => seq![0u8] + <T::Call as Codec>::encoding(c),
            Choice4::Field1(c) => seq![1u8] + <U::Call as Codec>::encoding(c),
            Choice4::Field2(c) => seq![2u8] + <V::Call as Codec>::encoding(c),
            Choice4::Field3(c) => seq![3u8] + <W::Call as Codec>::encoding(c),
        }
    }

    open spec fn parse(bytes: Seq<u8>) -> Option<(Self::V, nat)> {
        if bytes.len() == 0 {
            None
        } else if bytes[0] == 0 {
            match <T::Call as Codec>::parse(bytes.skip(1)) {
                Some((c, n)) => Some((Choice4::Field0(c), n + 1)),
                None => None,
            }
        } else if bytes[0] == 1 {
            match <U::Call as Codec>::parse(bytes.skip(1)) {
                Some((c, n)) => Some((Choice4::Field1(c), n + 1)),
                None => None,
            }
        } else if bytes[0] == 2 {
            match <V::Call as Codec>::parse(bytes.skip(1)) {
                Some((c, n)) => Some((Choice4::Field2(c), n + 1)),
                None => None,
            }
        } else if bytes[0] == 3 {
            match <W::Call as Codec>::parse(bytes.skip(1)) {
                Some((c, n)) => Some((Choice4::Field3(c), n + 1)),
                None => None,
            }
        } else {
            None
        }
    }

    open spec fn terminated() -> bool {
        <T::Call as Codec>::terminated() && <U::Call as Codec>::terminated() && <V::Call as Codec>::terminated() && <W::Call as Codec>::terminated()
    }

    fn is_terminated() -> (r: bool) {
        <T::Call as Codec>::is_terminated() && <U::Call as Codec>::is_terminated() && <V::Call as Codec>::is_terminated() && <W::Call as Codec>::is_terminated()
    }

    fn encode(&self) -> (r: Result<Vec<u8>, Failure>) {
        let (tag, mut body) = match self {
            Tuple4Call::Field0(c) => (0u8, c.encode()?),
            Tuple4Call::Field1(c) => (1u8, c.encode()?),
            Tuple4Call::Field2(c) => (2u8, c.encode()?),
            Tuple4Call::Field3(c) => (3u8, c.encode()?),
        };
        let mut out = vec![tag];
        out.append(&mut body);
        assert(out@ =~= Self::encoding(self@));
        Ok(out)
    }

    fn decode(bytes: &[u8]) -> (r: Result<(Self, usize), Failure>) {
        if bytes.len() == 0 {
            return Err(Failure::UnexpectedEof);
        }
        let tail = &bytes[1..bytes.len()];
        assert(tail@ =~= bytes@.skip(1));
        if bytes[0] == 0 {
            let (c, n) = <T::Call as Codec>::decode(tail)?;
            Ok((Tuple4Call::Field0(c), n + 1))
        } else if bytes[0] == 1 {
            let (c, n) = <U::Call as Codec>::decode(tail)?;
            Ok((Tuple4Call::Field1(c), n + 1))
        } else if bytes[0] == 2 {
            let (c, n) = <V::Call as Codec>::decode(tail)?;
            Ok((Tuple4Call::Field2(c), n + 1))
        } else if bytes[0] == 3 {
            let (c, n) = <W::Call as Codec>::decode(tail)?;
            Ok((Tuple4Call::Field3(c), n + 1))
        } else {
            Err(Failure::UnexpectedByte(bytes[0]))
        }
    }

    proof fn lemma_round_trip(v: Self::V, rest: Seq<u8>) {
        match v {
            Choice4::Field0(c) => {
                assert((seq![0u8] + <T::Call as Codec>::encoding(c) + rest).skip(1) =~= <T::Call as Codec>::encoding(c)
                    + rest);
                <T::Call as Codec>::lemma_round_trip(c, rest);
            },
            Choice4::Field1(c) => {
                assert((seq![1u8] + <U::Call as Codec>::encoding(c) + rest).skip(1) =~= <U::Call as Codec>::encoding(c)
                    + rest);
                <U::Call as Codec>::lemma_round_trip(c, rest);
            },
            Choice4::Field2(c) => {
                assert((seq![2u8] + <V::Call as Codec>::encoding(c) + rest).skip(1) =~= <V::Call as Codec>::encoding(c)
                    + rest);
                <V::Call as Codec>::lemma_round_trip(c, rest);
            },
            Choice4::Field3(c) => {
                assert((seq![3u8] + <W::Call as Codec>::encoding(c) + rest).skip(1) =~= <W::Call as Codec>::encoding(c)
                    + rest);
                <W::Call as Codec>::lemma_round_trip(c, rest);
            },
        }
    }
}

impl<T: Call, U: Call, V: Call, W: Call> Call for (T, U, V, W) {
    type Call = Tuple4Call<T, U, V, W>;

    open spec fn call_spec(before: (T, U, V, W), c: Tuple4Call<T, U, V, W>, after: (T, U, V, W), r: Result<(), Failure>) -> bool {
        match c {
            Tuple4Call::Field0(c0) => after.1 == before.1 && after.2 == before.2 && after.3 == before.3
                && T::call_spec(before.0, c0, after.0, r),
            Tuple4Call::Field1(c1) => after.0 == before.0 && after.2 == before.2 && after.3 == before.3
                && U::call_spec(before.1, c1, after.1, r),
            Tuple4Call::Field2(c2) => after.0 == before.0 && after.1 == before.1 && after.3 == before.3
                && V::call_spec(before.2, c2, after.2, r),
            Tuple4Call::Field3(c3) => after.0 == before.0 && after.1 == before.1 && after.2 == before.2
                && W::call_spec(before.3, c3, after.3, r),
        }
    }

    fn call(&mut self, c: Tuple4Call<T, U, V, W>) -> (r: Result<(), Failure>) {
        match c {
            Tuple4Call::Field0(c0) => self.0.call(c0),
            Tuple4Call::Field1(c1) => self.1.call(c1),
            Tuple4Call::Field2(c2) => self.2.call(c2),
            Tuple4Call::Field3(c3) => self.3.call(c3),
        }
    }
}

/// A fixed-size array takes an index and the instruction for the element
/// there; an index at or past `N` fails and touches nothing.
impl<T: Call, const N: usize> Call for [T; N] {
    type Call = (u64, T::Call);

    open spec fn call_spec(before: [T; N], c: (u64, T::Call), after: [T; N], r: Result<(), Failure>) -> bool {
        let i = c.0 as int;
        if i < N {
            &&& forall|j: int| 0 <= j < N && j != i ==> after@[j] == before@[j]
            &&& T::call_spec(before@[i], c.1, after@[i], r)
        } else {
            after == before && r == Err::<(), Failure>(Failure::IndexOutOfBounds(c.0))
        }
    }

    fn call(&mut self, c: (u64, T::Call)) -> (r: Result<(), Failure>) {
        let (index, sub) = c;
        if index >= N as u64 {
            return Err(Failure::IndexOutOfBounds(index));
        }
        let elem = &mut self[index as usize];
        elem.call(sub)
    }
}

/// One instruction stream for a node that has fields to descend into and
/// operations of its own: a field instruction, or a method instruction.
#[derive(Debug)]
pub enum Item<T, U> {
    Field(T),
    Method(U),
}

impl<T: View, U: View> View for Item<T, U> {
    type V = Item<T::V, U::V>;

    open spec fn view(&self) -> Item<T::V, U::V> {
        match self {
            Item::Field(f) => Item::Field(f@),
            Item::Method(m) => Item::Method(m@),
        }
    }
}

/// A non-empty encoding whose leading byte lies below the offset.
pub open spec fn leads_below_offset(e: Seq<u8>) -> bool {
    e.len() > 0 && e[0] < PREFIX_OFFSET
}

/// Field instructions are written as they are; method instructions have the
/// offset added to their leading byte. Either must lead with a byte below the
/// offset, so that the two ranges never meet.
impl<T: Codec, U: Codec> Codec for Item<T, U> {
    open spec fn encodable(v: Item<T::V, U::V>) -> bool {
        match v {
            Item::Field(f) => T::encodable(f) && leads_below_offset(T::encoding(f)),
            Item::Method(m) => U::encodable(m) && leads_below_offset(U::encoding(m)),
        }
    }

    open spec fn encoding(v: Item<T::V, U::V>) -> Seq<u8> {
        match v {
            Item::Field(f) => T::encoding(f),
            Item::Method(m) => {
                let e = U::encoding(m);
                e.update(0, (e[0] + PREFIX_OFFSET) as u8)
            },
        }
    }

    open spec fn parse(bytes: Seq<u8>) -> Option<(Item<T::V, U::V>, nat)> {
        if bytes.len() == 0 {
            None
        } else if bytes[0] < PREFIX_OFFSET {
            match T::parse(bytes) {
                Some((f, n)) => Some((Item::Field(f), n)),
                None => None,
            }
        } else {
            match U::parse(bytes.update(0, (bytes[0] - PREFIX_OFFSET) as u8)) {
                Some((m, n)) => Some((Item::Method(m), n)),
                None => None,
            }
        }
    }

    open spec fn terminated() -> bool {
        T::terminated() && U::terminated()
    }

    fn is_terminated() -> (r: bool) {
        T::is_terminated() && U::is_terminated()
    }

    fn encode(&self) -> (r: Result<Vec<u8>, Failure>) {
        match self {
            Item::Field(f) => {
                let bytes = f.encode()?;
                if bytes.len() > 0 && bytes[0] < PREFIX_OFFSET {
                    Ok(bytes)
                } else {
                    Err(Failure::UnencodableVariant)
                }
            },
            Item::Method(m) => {
                let mut bytes = m.encode()?;
                if bytes.len() > 0 && bytes[0] < PREFIX_OFFSET {
                    let lead = bytes[0] + PREFIX_OFFSET;
                    bytes.set(0, lead);
                    Ok(bytes)
                } else {
                    Err(Failure::UnencodableVariant)
                }
            },
        }
    }

    fn decode(bytes: &[u8]) -> (r: Result<(Self, usize), Failure>) {
        if bytes.len() == 0 {
            return Err(Failure::UnexpectedEof);
        }
        let lead = bytes[0];
        if lead < PREFIX_OFFSET {
            let (f, n) = T::decode(bytes)?;
            Ok((Item::Field(f), n))
        } else {
            let mut shifted = crate::text::copy_bytes(bytes);
            shifted.set(0, lead - PREFIX_OFFSET);
            assert(shifted@ == bytes@.update(0, (lead - PREFIX_OFFSET) as u8));
            let (m, n) = U::decode(shifted.as_slice())?;
            Ok((Item::Method(m), n))
        }
    }

    proof fn lemma_round_trip(v: Item<T::V, U::V>, rest: Seq<u8>) {
        match v {
            Item::Field(f) => {
                T::lemma_round_trip(f, rest);
                assert((T::encoding(f) + rest)[0] == T::encoding(f)[0]);
            },
            Item::Method(m) => {
                let e = U::encoding(m);
                let all = e.update(0, (e[0] + PREFIX_OFFSET) as u8) + rest;
                assert(all[0] == e[0] + PREFIX_OFFSET);
                assert(all.update(0, (all[0] - PREFIX_OFFSET) as u8) =~= e + rest);
                U::lemma_round_trip(m, rest);
            },
        }
    }
}

/// The leading byte alone tells the two kinds of instruction apart: whatever
/// decodes as a field instruction leads with a byte below the offset, whatever
/// decodes as a method instruction with one at or above it. An encoded field
/// instruction decodes as that field instruction, an encoded method
/// instruction as that method instruction.
pub proof fn lemma_discriminant_partition<T: Codec, U: Codec>(bytes: Seq<u8>, v: Item<T::V, U::V>)
    requires
        Item::<T, U>::terminated() || bytes.len() == 0,
    ensures
        Item::<T, U>::parse(bytes) matches Some((Item::Field(_), _)) ==> bytes[0] < PREFIX_OFFSET,
        Item::<T, U>::parse(bytes) matches Some((Item::Method(_), _)) ==> bytes[0] >= PREFIX_OFFSET,
        Item::<T, U>::encodable(v) ==> Item::<T, U>::parse(Item::<T, U>::encoding(v) + bytes) == Some(
            (v, Item::<T, U>::encoding(v).len()),
        ),
{
    if Item::<T, U>::encodable(v) {
        Item::<T, U>::lemma_round_trip(v, bytes);
    }
}

/// A node whose fields take instructions.
pub trait FieldCall: Sized {
    type FieldCall;

    spec fn field_call_spec(before: Self, c: Self::FieldCall, after: Self, r: Result<(), Failure>) -> bool;

    fn field_call(&mut self, c: Self::FieldCall) -> (r: Result<(), Failure>)
        ensures
            Self::field_call_spec(*old(self), c, *final(self), r),
    ;
}

/// A node with operations of its own.
pub trait MethodCall: Sized {
    type MethodCall;

    spec fn method_call_spec(before: Self, c: Self::MethodCall, after: Self, r: Result<(), Failure>) -> bool;

    fn method_call(&mut self, c: Self::MethodCall) -> (r: Result<(), Failure>)
        ensures
            Self::method_call_spec(*old(self), c, *final(self), r),
    ;
}

/// Routes a two-way instruction: a field instruction to the node's fields, a
/// method instruction to the node's own operation.
pub fn call_item<T: FieldCall + MethodCall>(node: &mut T, c: Item<T::FieldCall, T::MethodCall>) -> (r: Result<(), Failure>)
    ensures
        match c {
            Item::Field(f) => T::field_call_spec(*old(node), f, *final(node), r),
            Item::Method(m) => T::method_call_spec(*old(node), m, *final(node), r),
        },
{
    match c {
        Item::Field(f) => node.field_call(f),
        Item::Method(m) => node.method_call(m),
    }
}

/// Decodes `subcall` as an instruction for `value` and routes it there. Bytes
/// that do not decode fail before anything is called.
pub fn maybe_call<T: Call>(value: T, subcall: Vec<u8>) -> (r: Result<(), Failure>)
    where
        T::Call: Codec,
    ensures
        <T::Call as Codec>::parse(subcall@) is None ==> r is Err,
        <T::Call as Codec>::parse(subcall@) is Some ==> exists|c: T::Call, after: T|
            c@ == <T::Call as Codec>::parse(subcall@)->Some_0.0 && #[trigger] T::call_spec(value, c, after, r),
{
    let mut value = value;
    let (c, _) = <T::Call as Codec>::decode(subcall.as_slice())?;
    let ghost before = value;
    let ghost cv = c;
    let r = value.call(c);
    assert(T::call_spec(before, cv, value, r));
    r
}

/// A handle for building instructions addressed to a node of type `T`.
pub struct CallBuilder<T> {
    _phantom: core::marker::PhantomData<T>,
}

impl<T> CallBuilder<T> {
    pub fn new() -> (r: Self) {
        CallBuilder { _phantom: core::marker::PhantomData }
    }

    /// A builder for the type that `_value` points to.
    pub fn make<U: core::ops::Deref<Target = T>>(_value: U) -> (r: Self) {
        Self::new()
    }
}

} // verus!
