//! The keys and small values under which inter-chain state is stored: port
//! and channel paths, heights and timestamps.
use vstd::prelude::*;
use crate::encoding::{ByteTerminatedString, Codec, EofTerminatedString, FixedString};
use crate::error::Failure;
use crate::order::{lex_lt, lemma_lex_common_prefix};
use crate::state::State;
use crate::store::{Read, Store};
use crate::text::{copy_bytes, decimal, Text};

verus! {

/// An identifier followed by `/`.
pub type SlashTerminatedString = ByteTerminatedString<47, Vec<u8>>;

pub open spec fn has_label(s: Seq<u8>, label: Seq<u8>) -> bool {
    label.len() <= s.len() && s.take(label.len() as int) == label
}

/// `ports/`
pub open spec fn ports_label() -> Seq<u8> {
    seq![112u8, 111, 114, 116, 115, 47]
}

/// `channels/`
pub open spec fn channels_label() -> Seq<u8> {
    seq![99u8, 104, 97, 110, 110, 101, 108, 115, 47]
}

/// `sequences/`
pub open spec fn sequences_label() -> Seq<u8> {
    seq![115u8, 101, 113, 117, 101, 110, 99, 101, 115, 47]
}

fn ports_bytes() -> (r: Vec<u8>)
    ensures
        r@ == ports_label(),
{
    let r = vec![112u8, 111, 114, 116, 115, 47];
    assert(r@ =~= ports_label());
    r
}

fn channels_bytes() -> (r: Vec<u8>)
    ensures
        r@ == channels_label(),
{
    let r = vec![99u8, 104, 97, 110, 110, 101, 108, 115, 47];
    assert(r@ =~= channels_label());
    r
}

fn sequences_bytes() -> (r: Vec<u8>)
    ensures
        r@ == sequences_label(),
{
    let r = vec![115u8, 101, 113, 117, 101, 110, 99, 101, 115, 47];
    assert(r@ =~= sequences_label());
    r
}

/// The key of a channel: `ports/` + port + `/channels/` + channel.
#[derive(Clone, Debug)]
pub struct PortChannel {
    port: Vec<u8>,
    channel: Vec<u8>,
}

impl View for PortChannel {
    type V = (Seq<u8>, Seq<u8>);

    closed spec fn view(&self) -> (Seq<u8>, Seq<u8>) {
        (self.port@, self.channel@)
    }
}

impl PortChannel {
    pub fn new(port_id: Vec<u8>, channel_id: Vec<u8>) -> (r: Self)
        ensures
            r@ == (port_id@, channel_id@),
    {
        PortChannel { port: port_id, channel: channel_id }
    }

    pub fn port_id(&self) -> (r: Vec<u8>)
        ensures
            r@ == self@.0,
    {
        copy_bytes(self.port.as_slice())
    }

    pub fn channel_id(&self) -> (r: Vec<u8>)
        ensures
            r@ == self@.1,
    {
        copy_bytes(self.channel.as_slice())
    }

    /// The key of packet `sequence` on this channel.
    pub fn with_sequence(self, sequence: u64) -> (r: PortChannelSequence)
        ensures
            r@ == (self@.0, self@.1, sequence),
    {
        PortChannelSequence::new(self.port, self.channel, sequence)
    }
}

impl Codec for PortChannel {
    open spec fn encodable(v: (Seq<u8>, Seq<u8>)) -> bool {
        !v.0.contains(47)
    }

    open spec fn encoding(v: (Seq<u8>, Seq<u8>)) -> Seq<u8> {
        ports_label() + v.0.push(47) + channels_label() + v.1
    }

    open spec fn parse(bytes: Seq<u8>) -> Option<((Seq<u8>, Seq<u8>), nat)> {
        if has_label(bytes, ports_label()) {
            let b1 = bytes.skip(6);
            match SlashTerminatedString::parse(b1) {
                Some((port, n)) => {
                    let b2 = b1.skip(n as int);
                    if has_label(b2, channels_label()) {
                        Some(((port, b2.skip(9)), bytes.len()))
                    } else {
                        None
                    }
                },
                None => None,
            }
        } else {
            None
        }
    }

    open spec fn terminated() -> bool {
        false
    }

    fn is_terminated() -> (r: bool) {
        false
    }

    fn encode(&self) -> (r: Result<Vec<u8>, Failure>) {
        let mut port = ByteTerminatedString::<47, Vec<u8>>(copy_bytes(self.port.as_slice())).encode()?;
        let mut out = ports_bytes();
        out.append(&mut port);
        FixedString::encode_into(channels_bytes().as_slice(), &mut out);
        FixedString::encode_into(self.channel.as_slice(), &mut out);
        assert(out@ =~= Self::encoding(self@));
        Ok(out)
    }

    fn decode(bytes: &[u8]) -> (r: Result<(Self, usize), Failure>) {
        let a = FixedString::decode(ports_bytes().as_slice(), bytes)?;
        let b1 = &bytes[a..bytes.len()];
        assert(b1@ =~= bytes@.skip(6));
        let (port, n) = SlashTerminatedString::decode(b1)?;
        let b2 = &b1[n..b1.len()];
        assert(b2@ =~= b1@.skip(n as int));
        let c = FixedString::decode(channels_bytes().as_slice(), b2)?;
        let channel = copy_bytes(&b2[c..b2.len()]);
        assert(channel@ =~= b2@.skip(9));
        Ok((PortChannel { port: port.0, channel }, bytes.len()))
    }

    proof fn lemma_round_trip(v: (Seq<u8>, Seq<u8>), rest: Seq<u8>) {
        let all = Self::encoding(v) + rest;
        assert(all =~= ports_label() + (v.0.push(47) + (channels_label() + v.1)));
        assert(all.take(6) =~= ports_label());
        let b1 = all.skip(6);
        assert(b1 =~= v.0.push(47) + (channels_label() + v.1));
        SlashTerminatedString::lemma_round_trip(v.0, channels_label() + v.1);
        let b2 = b1.skip(v.0.len() as int + 1);
        assert(b2 =~= channels_label() + v.1);
        assert(b2.take(9) =~= channels_label());
        assert(b2.skip(9) =~= v.1);
    }
}

impl State for PortChannel {
}

/// A channel key that decodes is written back byte for byte.
pub proof fn lemma_channel_key_reencode(bytes: Seq<u8>)
    requires
        PortChannel::parse(bytes) is Some,
    ensures
        ({
            let (v, n) = PortChannel::parse(bytes)->Some_0;
            PortChannel::encodable(v) && PortChannel::encoding(v) == bytes && n == bytes.len()
        }),
{
    let b1 = bytes.skip(6);
    crate::encoding::lemma_term_pos_found(b1, 47);
    let e = crate::encoding::term_pos(b1, 47);
    let (v, n) = PortChannel::parse(bytes)->Some_0;
    if e == b1.len() {
        assert(b1.skip(e as int).len() == 0);
    }
    let port = b1.take(e as int);
    assert(!port.contains(47)) by {
        if port.contains(47) {
            let i = choose|i: int| 0 <= i < port.len() && port[i] == 47;
            assert(b1[i] == 47);
        }
    }
    let b2 = b1.skip(e as int + 1);
    assert(b2.take(9) == channels_label());
    assert(bytes =~= bytes.take(6) + b1);
    assert(b1 =~= port.push(47) + b2);
    assert(b2 =~= b2.take(9) + b2.skip(9));
    assert(PortChannel::encoding(v) =~= bytes);
}

/// Channel keys under one port sort as their channel identifiers do.
pub proof fn lemma_channel_key_order(port: Seq<u8>, a: Seq<u8>, b: Seq<u8>)
    ensures
        lex_lt(PortChannel::encoding((port, a)), PortChannel::encoding((port, b))) == lex_lt(a, b),
{
    let head = ports_label() + port.push(47) + channels_label();
    assert(PortChannel::encoding((port, a)) =~= head + a);
    assert(PortChannel::encoding((port, b)) =~= head + b);
    lemma_lex_common_prefix(head, a, b);
}

/// The key of a packet: `ports/` + port + `/channels/` + channel +
/// `/sequences/` + the sequence number in decimal.
#[derive(Clone, Debug)]
pub struct PortChannelSequence {
    port: Vec<u8>,
    channel: Vec<u8>,
    sequence: u64,
}

impl View for PortChannelSequence {
    type V = (Seq<u8>, Seq<u8>, u64);

    closed spec fn view(&self) -> (Seq<u8>, Seq<u8>, u64) {
        (self.port@, self.channel@, self.sequence)
    }
}

impl PortChannelSequence {
    pub fn new(port_id: Vec<u8>, channel_id: Vec<u8>, sequence: u64) -> (r: Self)
        ensures
            r@ == (port_id@, channel_id@, sequence),
    {
        PortChannelSequence { port: port_id, channel: channel_id, sequence }
    }

    pub fn port_id(&self) -> (r: Vec<u8>)
        ensures
            r@ == self@.0,
    {
        copy_bytes(self.port.as_slice())
    }

    pub fn channel_id(&self) -> (r: Vec<u8>)
        ensures
            r@ == self@.1,
    {
        copy_bytes(self.channel.as_slice())
    }

    pub fn sequence(&self) -> (r: u64)
        ensures
            r == self@.2,
    {
        self.sequence
    }
}

impl Codec for PortChannelSequence {
    open spec fn encodable(v: (Seq<u8>, Seq<u8>, u64)) -> bool {
        !v.0.contains(47) && !v.1.contains(47)
    }

    open spec fn encoding(v: (Seq<u8>, Seq<u8>, u64)) -> Seq<u8> {
        ports_label() + v.0.push(47) + channels_label() + v.1.push(47) + sequences_label() + decimal(
            v.2 as nat,
        )
    }

    open spec fn parse(bytes: Seq<u8>) -> Option<((Seq<u8>, Seq<u8>, u64), nat)> {
        if has_label(bytes, ports_label()) {
            let b1 = bytes.skip(6);
            match SlashTerminatedString::parse(b1) {
                Some((port, n)) => {
                    let b2 = b1.skip(n as int);
                    if has_label(b2, channels_label()) {
                        let b3 = b2.skip(9);
                        match SlashTerminatedString::parse(b3) {
                            Some((channel, m)) => {
                                let b4 = b3.skip(m as int);
                                if has_label(b4, sequences_label()) {
                                    match u64::from_text(b4.skip(10)) {
                                        Some(sequence) => Some(((port, channel, sequence), bytes.len())),
                                        None => None,
                                    }
                                } else {
                                    None
                                }
                            },
                            None => None,
                        }
                    } else {
                        None
                    }
                },
                None => None,
            }
        } else {
            None
        }
    }

    open spec fn terminated() -> bool {
        false
    }

    fn is_terminated() -> (r: bool) {
        false
    }

    fn encode(&self) -> (r: Result<Vec<u8>, Failure>) {
        let mut port = ByteTerminatedString::<47, Vec<u8>>(copy_bytes(self.port.as_slice())).encode()?;
        let mut channel = ByteTerminatedString::<47, Vec<u8>>(copy_bytes(self.channel.as_slice())).encode()?;
        let mut out = ports_bytes();
        out.append(&mut port);
        FixedString::encode_into(channels_bytes().as_slice(), &mut out);
        out.append(&mut channel);
        FixedString::encode_into(sequences_bytes().as_slice(), &mut out);
        let mut number = self.sequence.to_text();
        out.append(&mut number);
        assert(out@ =~= Self::encoding(self@));
        Ok(out)
    }

    fn decode(bytes: &[u8]) -> (r: Result<(Self, usize), Failure>) {
        let a = FixedString::decode(ports_bytes().as_slice(), bytes)?;
        let b1 = &bytes[a..bytes.len()];
        assert(b1@ =~= bytes@.skip(6));
        let (port, n) = SlashTerminatedString::decode(b1)?;
        let b2 = &b1[n..b1.len()];
        assert(b2@ =~= b1@.skip(n as int));
        let c = FixedString::decode(channels_bytes().as_slice(), b2)?;
        let b3 = &b2[c..b2.len()];
        assert(b3@ =~= b2@.skip(9));
        let (channel, m) = SlashTerminatedString::decode(b3)?;
        let b4 = &b3[m..b3.len()];
        assert(b4@ =~= b3@.skip(m as int));
        let d = FixedString::decode(sequences_bytes().as_slice(), b4)?;
        let b5 = &b4[d..b4.len()];
        assert(b5@ =~= b4@.skip(10));
        match u64::parse_text(b5) {
            Some(sequence) => Ok((PortChannelSequence { port: port.0, channel: channel.0, sequence }, bytes.len())),
            None => Err(Failure::InvalidText),
        }
    }

    proof fn lemma_round_trip(v: (Seq<u8>, Seq<u8>, u64), rest: Seq<u8>) {
        let num = decimal(v.2 as nat);
        let all = Self::encoding(v) + rest;
        let tail2 = channels_label() + (v.1.push(47) + (sequences_label() + num));
        assert(all =~= ports_label() + (v.0.push(47) + tail2));
        assert(all.take(6) =~= ports_label());
        let b1 = all.skip(6);
        assert(b1 =~= v.0.push(47) + tail2);
        SlashTerminatedString::lemma_round_trip(v.0, tail2);
        let b2 = b1.skip(v.0.len() as int + 1);
        assert(b2 =~= tail2);
        assert(b2.take(9) =~= channels_label());
        let b3 = b2.skip(9);
        assert(b3 =~= v.1.push(47) + (sequences_label() + num));
        SlashTerminatedString::lemma_round_trip(v.1, sequences_label() + num);
        let b4 = b3.skip(v.1.len() as int + 1);
        assert(b4 =~= sequences_label() + num);
        assert(b4.take(10) =~= sequences_label());
        assert(b4.skip(10) =~= num);
        u64::lemma_text_round_trip(v.2);
    }
}

impl State for PortChannelSequence {
}

/// A point in time, in nanoseconds since the Unix epoch.
#[derive(Clone, Copy, Debug, PartialEq, Eq)]
pub struct Timestamp {
    pub nanos: u64,
}

impl View for Timestamp {
    type V = u64;

    open spec fn view(&self) -> u64 {
        self.nanos
    }
}

impl Codec for Timestamp {
    open spec fn encodable(v: u64) -> bool {
        true
    }

    open spec fn encoding(v: u64) -> Seq<u8> {
        <u64 as Codec>::encoding(v)
    }

    open spec fn parse(bytes: Seq<u8>) -> Option<(u64, nat)> {
        <u64 as Codec>::parse(bytes)
    }

    open spec fn terminated() -> bool {
        true
    }

    fn is_terminated() -> (r: bool) {
        true
    }

    fn encode(&self) -> (r: Result<Vec<u8>, Failure>) {
        self.nanos.encode()
    }

    fn decode(bytes: &[u8]) -> (r: Result<(Self, usize), Failure>) {
        let (nanos, n) = u64::decode(bytes)?;
        Ok((Timestamp { nanos }, n))
    }

    proof fn lemma_round_trip(v: u64, rest: Seq<u8>) {
        <u64 as Codec>::lemma_round_trip(v, rest);
    }
}

impl State for Timestamp {
}

/// The version tag that stored timestamps carry.
pub const TIMESTAMP_VERSION: u8 = 1;

impl Timestamp {
    /// Reads a timestamp stored under version tag 1: the tag, then the
    /// nanoseconds. Any other tag fails, naming the tag found.
    pub fn migrate<S: Read>(store: Store<S>, bytes: &[u8]) -> (r: Result<(Timestamp, usize), Failure>)
        ensures
            bytes@.len() == 0 ==> r == Err::<(Timestamp, usize), Failure>(Failure::UnexpectedEof),
            bytes@.len() > 0 && bytes@[0] != 1 ==> r == Err::<(Timestamp, usize), Failure>(
                Failure::InvalidVersion(bytes@[0]),
            ),
            bytes@.len() > 0 && bytes@[0] == 1 ==> {
                &&& r is Ok <==> bytes@.len() >= 9
                &&& r is Ok ==> r->Ok_0.1 == 9 && Timestamp::parse(bytes@.skip(1)) == Some(
                    (r->Ok_0.0@, 8nat),
                )
            },
    {
        crate::state::load_versioned::<Timestamp, S>(TIMESTAMP_VERSION, store, bytes)
    }
}

/// A value written under version 1 and migrated reads as the timestamp
/// built directly, and flushes to the same bytes.
pub proof fn lemma_timestamp_migration(nanos: u64, rest: Seq<u8>)
    ensures
        (crate::state::versioned::<Timestamp>(1, nanos) + rest)[0] == 1,
        Timestamp::parse((crate::state::versioned::<Timestamp>(1, nanos) + rest).skip(1)) == Some(
            (nanos, 8nat),
        ),
        Timestamp::encoding(nanos) == <u64 as Codec>::encoding(nanos),
{
    crate::state::lemma_versioned_round_trip::<Timestamp>(1, nanos, rest);
    crate::ints::lemma_be_bytes_len(nanos as nat, 8);
}

/// A height: the revision (epoch) and the height within it.
#[derive(Clone, Copy, Debug, PartialEq, Eq)]
pub struct BinaryHeight {
    pub epoch: u64,
    pub height: u64,
}

impl View for BinaryHeight {
    type V = (u64, u64);

    open spec fn view(&self) -> (u64, u64) {
        (self.epoch, self.height)
    }
}

impl Codec for BinaryHeight {
    open spec fn encodable(v: (u64, u64)) -> bool {
        true
    }

    open spec fn encoding(v: (u64, u64)) -> Seq<u8> {
        <(u64, u64) as Codec>::encoding(v)
    }

    open spec fn parse(bytes: Seq<u8>) -> Option<((u64, u64), nat)> {
        <(u64, u64) as Codec>::parse(bytes)
    }

    open spec fn terminated() -> bool {
        true
    }

    fn is_terminated() -> (r: bool) {
        true
    }

    fn encode(&self) -> (r: Result<Vec<u8>, Failure>) {
        (self.epoch, self.height).encode()
    }

    fn decode(bytes: &[u8]) -> (r: Result<(Self, usize), Failure>) {
        let ((epoch, height), n) = <(u64, u64)>::decode(bytes)?;
        Ok((BinaryHeight { epoch, height }, n))
    }

    proof fn lemma_round_trip(v: (u64, u64), rest: Seq<u8>) {
        <(u64, u64) as Codec>::lemma_round_trip(v, rest);
    }
}

impl State for BinaryHeight {
}

/// The text key of a height: epoch, `-`, height, in decimal.
pub open spec fn epoch_height_text(h: (u64, u64)) -> Seq<u8> {
    decimal(h.0 as nat).push(45) + decimal(h.1 as nat)
}

impl BinaryHeight {
    /// The text form of this height, as used in keys.
    pub fn to_epoch_height(&self) -> (r: EofTerminatedString<Vec<u8>>)
        ensures
            r@ == epoch_height_text(self@),
    {
        let mut out = self.epoch.to_text();
        out.push(45);
        let mut tail = self.height.to_text();
        out.append(&mut tail);
        EofTerminatedString(out)
    }

    /// Reads a height back from its text form. A height of 0 is no height
    /// and is refused.
    pub fn from_epoch_height(text: &EofTerminatedString<Vec<u8>>) -> (r: Result<BinaryHeight, Failure>)
        ensures
            ({
                let t = text@;
                let d = crate::encoding::term_pos(t, 45);
                let epoch = u64::from_text(t.take(d as int));
                let height = u64::from_text(t.skip(d as int + 1));
                let good = d < t.len() && epoch is Some && height is Some && height->Some_0 > 0;
                &&& r is Ok <==> good
                &&& good ==> r == Ok::<BinaryHeight, Failure>(
                    BinaryHeight { epoch: epoch->Some_0, height: height->Some_0 },
                )
                &&& !good ==> r == Err::<BinaryHeight, Failure>(Failure::InvalidText)
            }),
            forall|e: u64, h: u64| h > 0 && text@ == #[trigger] epoch_height_text((e, h)) ==> r == Ok::<BinaryHeight, Failure>(
                BinaryHeight { epoch: e, height: h },
            ),
    {
        let s = text.0.as_slice();
        let mut i: usize = 0;
        while i < s.len() && s[i] != 45
            invariant
                i <= s@.len(),
                forall|j: int| 0 <= j < i ==> s@[j] != 45,
            decreases s.len() - i,
        {
            i = i + 1;
        }
        proof {
            crate::encoding::lemma_term_pos(s@, 45, i as int);
        }
        if i >= s.len() {
            proof {
                assert forall|e: u64, h: u64| h > 0 && text@ == #[trigger] epoch_height_text((e, h)) implies false by {
                    crate::text::lemma_decimal(e as nat);
                    let t = epoch_height_text((e, h));
                    assert(t[decimal(e as nat).len() as int] == 45);
                }
            }
            return Err(Failure::InvalidText);
        }
        let first = &s[0..i];
        let second = &s[i + 1..s.len()];
        assert(first@ =~= s@.take(i as int));
        assert(second@ =~= s@.skip(i + 1));
        proof {
            assert forall|e: u64, h: u64| h > 0 && text@ == #[trigger] epoch_height_text((e, h)) implies
                first@ == decimal(e as nat) && second@ == decimal(h as nat) by {
                crate::text::lemma_decimal(e as nat);
                let d = decimal(e as nat);
                let t = epoch_height_text((e, h));
                assert forall|j: int| 0 <= j < d.len() implies t[j] != 45 by {
                    assert(t[j] == d[j]);
                    assert(crate::text::is_digit(d[j]));
                }
                assert(t[d.len() as int] == 45);
                crate::encoding::lemma_term_pos(t, 45, d.len() as int);
                assert(t.take(d.len() as int) =~= d);
                assert(t.skip(d.len() as int + 1) =~= decimal(h as nat));
            }
        }
        let epoch = match u64::parse_text(first) {
            Some(e) => e,
            None => {
                proof {
                    assert forall|e: u64, h: u64| h > 0 && text@ == #[trigger] epoch_height_text((e, h)) implies false by {
                        u64::lemma_text_round_trip(e);
                    }
                }
                return Err(Failure::InvalidText);
            },
        };
        let height = match u64::parse_text(second) {
            Some(h) => h,
            None => {
                proof {
                    assert forall|e: u64, h: u64| h > 0 && text@ == #[trigger] epoch_height_text((e, h)) implies false by {
                        u64::lemma_text_round_trip(h);
                    }
                }
                return Err(Failure::InvalidText);
            },
        };
        if height == 0 {
            proof {
                assert forall|e: u64, h: u64| h > 0 && text@ == #[trigger] epoch_height_text((e, h)) implies false by {
                    u64::lemma_text_round_trip(h);
                }
            }
            return Err(Failure::InvalidText);
        }
        proof {
            assert forall|e: u64, h: u64| h > 0 && text@ == #[trigger] epoch_height_text((e, h)) implies e == epoch && h == height by {
                u64::lemma_text_round_trip(e);
                u64::lemma_text_round_trip(h);
            }
        }
        Ok(BinaryHeight { epoch, height })
    }
}

} // verus!
