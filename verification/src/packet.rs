//! Packets and payloads of the Engine.IO v3 wire protocol: one packet is a
//! tag and a byte string; a payload frames a sequence of packets, in text
//! framing (with a Base64 fallback for binary data) or in the XHR2 binary
//! framing, with an optional JSONP wrapper.
use vstd::prelude::*;
use vstd::slice::{slice_subrange, slice_to_vec};

use crate::base64;
use crate::decimal::{
    dec_digits,
    dec_value,
    digit_prefix_len,
    is_ascii_digit,
    is_raw_digit,
    lemma_digit_prefix_len,
    lemma_raw_digit_prefix_len,
    raw_digit_prefix_len,
    raw_value,
};

verus! {

/// A packet's tag.
#[derive(Copy, Clone, Debug, PartialEq, Eq, Structural)]
pub enum ID {
    Open,
    Close,
    Ping,
    Pong,
    Message,
    Upgrade,
    Noop,
}

/// The ASCII digit that carries a tag on the wire (`'0'..='6'`).
pub open spec fn id_tag(id: ID) -> u8 {
    match id {
        ID::Open => 0x30,
        ID::Close => 0x31,
        ID::Ping => 0x32,
        ID::Pong => 0x33,
        ID::Message => 0x34,
        ID::Upgrade => 0x35,
        ID::Noop => 0x36,
    }
}

/// The tag carried by an ASCII digit (`'0'..='6'`).
pub open spec fn tag_id(u: u8) -> ID
    recommends
        0x30 <= u <= 0x36,
{
    if u == 0x30 {
        ID::Open
    } else if u == 0x31 {
        ID::Close
    } else if u == 0x32 {
        ID::Ping
    } else if u == 0x33 {
        ID::Pong
    } else if u == 0x34 {
        ID::Message
    } else if u == 0x35 {
        ID::Upgrade
    } else {
        ID::Noop
    }
}

impl ID {
    /// The ASCII digit of this tag.
    pub fn tag(&self) -> (r: u8)
        ensures
            r == id_tag(*self),
    {
        match self {
            ID::Open => 0x30,
            ID::Close => 0x31,
            ID::Ping => 0x32,
            ID::Pong => 0x33,
            ID::Message => 0x34,
            ID::Upgrade => 0x35,
            ID::Noop => 0x36,
        }
    }
}

/// What can go wrong decoding a packet or a payload.
#[derive(Copy, Clone, Debug, PartialEq, Eq, Structural)]
pub enum Error {
    /// A packet tag outside `'0'..='6'`; holds the offending byte.
    InvalidPacketID(u8),
    /// A byte that is not a digit value `0..=9` where the XHR2 framing
    /// expects length digits; holds the offending byte's value.
    InvalidLengthDigit(u32),
    /// A byte that is neither an ASCII digit nor `':'` where the text
    /// framing expects a length; holds the offending byte.
    InvalidLengthCharacter(u8),
    /// The input ended before a declared length, its terminator, or the
    /// declared number of packet bytes was available.
    IncompletePacket,
    /// An empty payload, or an empty packet body.
    EmptyPacket,
    /// A `'b'`-prefixed packet whose body is not Base64.
    Base64DecodeError,
}

impl Error {
    /// A short description of the error, as a static string.
    pub fn description(&self) -> (r: &'static str)
        ensures
            (self matches Error::InvalidPacketID(_)) ==> r@ == "invalid packet ID"@,
            (self matches Error::InvalidLengthDigit(_)) ==> r@ == "invalid length digit"@,
            (self matches Error::InvalidLengthCharacter(_)) ==> r@ == "invalid length character"@,
            *self == Error::IncompletePacket ==> r@ == "incomplete packet"@,
            *self == Error::EmptyPacket ==> r@ == "empty packet"@,
            *self == Error::Base64DecodeError ==> r@ == "base64 decode error"@,
    {
        proof {
            reveal_strlit("invalid packet ID");
            reveal_strlit("invalid length digit");
            reveal_strlit("invalid length character");
            reveal_strlit("incomplete packet");
            reveal_strlit("empty packet");
            reveal_strlit("base64 decode error");
        }
        match self {
            Error::InvalidPacketID(_) => "invalid packet ID",
            Error::InvalidLengthDigit(_) => "invalid length digit",
            Error::InvalidLengthCharacter(_) => "invalid length character",
            Error::IncompletePacket => "incomplete packet",
            Error::EmptyPacket => "empty packet",
            Error::Base64DecodeError => "base64 decode error",
        }
    }
}

/// One packet: a tag and its data bytes.
#[derive(Clone, Debug, PartialEq, Eq)]
pub struct Packet {
    pub id: ID,
    pub data: Vec<u8>,
}

/// The mathematical model of a packet.
pub struct PacketV {
    pub id: ID,
    pub data: Seq<u8>,
}

impl View for Packet {
    type V = PacketV;

    open spec fn view(&self) -> PacketV {
        PacketV { id: self.id, data: self.data@ }
    }
}

/// The models of a sequence of packets.
pub open spec fn views(ps: Seq<Packet>) -> Seq<PacketV> {
    ps.map_values(|p: Packet| p@)
}

/// A packet's data is binary when it is not valid UTF-8.
pub open spec fn spec_is_binary(p: PacketV) -> bool {
    !vstd::utf8::valid_utf8(p.data)
}

/// Relies on `core::str::from_utf8`, which its documentation promises
/// returns `Ok` exactly on valid UTF-8; `vstd::utf8::valid_utf8` is the
/// statement of validity that vstd itself holds `str` to.
#[verifier::external_body]
fn utf8_check(data: &[u8]) -> (r: bool)
    ensures
        r == vstd::utf8::valid_utf8(data@),
{
    core::str::from_utf8(data).is_ok()
}

/// Maps a wire byte to a packet tag: exactly the ASCII digits `'0'..='6'`
/// are accepted.
pub fn u8_to_id(u: u8) -> (r: Result<ID, Error>)
    ensures
        r is Ok <==> 0x30 <= u <= 0x36,
        r matches Ok(id) ==> id == tag_id(u) && id_tag(id) == u,
        r matches Err(e) ==> e == Error::InvalidPacketID(u),
{
    if u == 0x30 {
        Ok(ID::Open)
    } else if u == 0x31 {
        Ok(ID::Close)
    } else if u == 0x32 {
        Ok(ID::Ping)
    } else if u == 0x33 {
        Ok(ID::Pong)
    } else if u == 0x34 {
        Ok(ID::Message)
    } else if u == 0x35 {
        Ok(ID::Upgrade)
    } else if u == 0x36 {
        Ok(ID::Noop)
    } else {
        Err(Error::InvalidPacketID(u))
    }
}

/// The packet decoded from one framed chunk: either an ASCII tag digit
/// followed by raw data, or `'b'`, the tag digit and Base64 of the data.
pub open spec fn spec_from_bytes(bytes: Seq<u8>) -> Result<PacketV, Error> {
    if bytes.len() == 0 {
        Err(Error::EmptyPacket)
    } else if bytes[0] == 0x62 {  // 'b'
        if bytes.len() < 2 {
            Err(Error::IncompletePacket)
        } else if !(0x30 <= bytes[1] <= 0x36) {
            Err(Error::InvalidPacketID(bytes[1]))
        } else {
            match base64::b64_decode(bytes.skip(2)) {
                Some(d) => Ok(PacketV { id: tag_id(bytes[1]), data: d }),
                None => Err(Error::Base64DecodeError),
            }
        }
    } else if !(0x30 <= bytes[0] <= 0x36) {
        Err(Error::InvalidPacketID(bytes[0]))
    } else {
        Ok(PacketV { id: tag_id(bytes[0]), data: bytes.skip(1) })
    }
}

impl Packet {
    /// Decodes one framed chunk, Base64 fallback included.
    pub fn from_bytes(bytes: &[u8]) -> (r: Result<Packet, Error>)
        ensures
            r matches Ok(p) ==> spec_from_bytes(bytes@) == Ok::<PacketV, Error>(p@),
            r matches Err(e) ==> spec_from_bytes(bytes@) == Err::<PacketV, Error>(e),
    {
        if bytes.len() == 0 {
            return Err(Error::EmptyPacket);
        }
        if bytes[0] == 0x62 {
            if bytes.len() < 2 {
                return Err(Error::IncompletePacket);
            }
            let id = match u8_to_id(bytes[1]) {
                Ok(id) => id,
                Err(e) => {
                    return Err(e);
                },
            };
            let body = slice_subrange(bytes, 2, bytes.len());
            match base64::decode(body) {
                Some(d) => Ok(Packet { id, data: d }),
                None => Err(Error::Base64DecodeError),
            }
        } else {
            let id = match u8_to_id(bytes[0]) {
                Ok(id) => id,
                Err(e) => {
                    return Err(e);
                },
            };
            let data = slice_to_vec(slice_subrange(bytes, 1, bytes.len()));
            Ok(Packet { id, data })
        }
    }

    /// True when the data is not valid UTF-8.
    pub fn is_binary(&self) -> (r: bool)
        ensures
            r == spec_is_binary(self@),
    {
        !utf8_check(self.data.as_slice())
    }

    /// Encodes the packet bare: the ASCII tag digit, then the data bytes.
    pub fn encode(&self) -> (r: Vec<u8>)
        ensures
            r@ == spec_encode_packet(self@),
    {
        let mut vec: Vec<u8> = Vec::new();
        vec.push(self.id.tag());
        push_all(&mut vec, self.data.as_slice());
        proof {
            assert(vec@ =~= spec_encode_packet(self@));
        }
        vec
    }

    /// Appends the bare encoding of the packet to `v`.
    pub fn encode_to(&self, v: &mut Vec<u8>)
        ensures
            final(v)@ == old(v)@ + spec_encode_packet(self@),
    {
        v.push(self.id.tag());
        push_all(v, self.data.as_slice());
        proof {
            assert(v@ =~= old(v)@ + spec_encode_packet(self@));
        }
    }
}

/// The bare encoding of a packet: its ASCII tag digit, then its data.
pub open spec fn spec_encode_packet(p: PacketV) -> Seq<u8> {
    seq![id_tag(p.id)] + p.data
}

/// A character sequence's UTF-8 encoding takes at most four bytes per
/// character.
pub proof fn lemma_encode_utf8_len(chars: Seq<char>)
    ensures
        vstd::utf8::encode_utf8(chars).len() <= 4 * chars.len(),
    decreases chars.len(),
{
    if chars.len() > 0 {
        lemma_encode_utf8_len(chars.drop_first());
        assert(vstd::utf8::encode_scalar(chars[0] as u32).len() <= 4);
    }
}

/// Appends a whole slice to a vector.
pub fn push_all(dst: &mut Vec<u8>, src: &[u8])
    ensures
        final(dst)@ == old(dst)@ + src@,
{
    let mut i: usize = 0;
    while i < src.len()
        invariant
            0 <= i <= src@.len(),
            dst@ == old(dst)@ + src@.subrange(0, i as int),
        decreases src@.len() - i,
    {
        dst.push(src[i]);
        proof {
            assert(old(dst)@ + src@.subrange(0, i as int) + seq![src@[i as int]] =~= old(dst)@
                + src@.subrange(0, i as int + 1));
        }
        i = i + 1;
    }
    proof {
        assert(src@.subrange(0, src@.len() as int) =~= src@);
    }
}

/// Decoding an encoded packet body gives the packet back, whatever the tag
/// and the data: raw when the data was written bare, through Base64 when it
/// was written with the `'b'` prefix.
pub proof fn lemma_packet_roundtrip_raw(p: PacketV)
    ensures
        spec_from_bytes(spec_encode_packet(p)) == Ok::<PacketV, Error>(p),
{
    let bytes = spec_encode_packet(p);
    assert(bytes[0] == id_tag(p.id));
    assert(0x30 <= bytes[0] <= 0x36);
    assert(bytes[0] != 0x62);
    assert(tag_id(id_tag(p.id)) == p.id);
    assert(bytes.skip(1) =~= p.data);
}

/// An encoded payload, ready to be written as an HTTP response body.
#[derive(Clone, Debug)]
pub struct Payload(pub Vec<u8>);

impl View for Payload {
    type V = Seq<u8>;

    open spec fn view(&self) -> Seq<u8> {
        self.0@
    }
}

/// Each `'"'` replaced by `'\'` `'"'`, as the JSONP wrapper requires of the
/// payload it quotes.
pub open spec fn escape_quotes(s: Seq<u8>) -> Seq<u8>
    decreases s.len(),
{
    if s.len() == 0 {
        Seq::<u8>::empty()
    } else {
        (if s[0] == 0x22 {
            seq![0x5cu8, 0x22u8]
        } else {
            seq![s[0]]
        }) + escape_quotes(s.skip(1))
    }
}

/// One packet's chunk under text framing: the ASCII decimal length, `':'`,
/// then the body. A binary packet's body is `'b'`, the tag digit and Base64
/// of the data, and the declared length counts the tag and the Base64 but
/// not the `'b'`; a text packet's body is the tag digit and the raw data,
/// all counted. Under the JSONP wrapper a text body's quotes are escaped;
/// the declared length still counts the bytes before escaping.
pub open spec fn spec_frame_text(p: PacketV, jsonp: bool) -> Seq<u8> {
    if spec_is_binary(p) {
        let enc = base64::b64_encode(p.data);
        dec_digits((enc.len() + 1) as nat) + seq![0x3au8] + spec_encode_packet_b64(p)
    } else {
        let body = if jsonp {
            escape_quotes(p.data)
        } else {
            p.data
        };
        dec_digits((p.data.len() + 1) as nat) + seq![0x3au8, id_tag(p.id)] + body
    }
}

/// One packet's chunk under the XHR2 binary framing: a flag byte (1 when
/// binary), the decimal digits of the length as raw byte values, `0xFF`,
/// then the tag digit and the raw data; the length counts the tag and the
/// data.
pub open spec fn spec_frame_xhr2(p: PacketV) -> Seq<u8> {
    seq![
        if spec_is_binary(p) {
            1u8
        } else {
            0u8
        },
    ] + crate::decimal::raw_digits((p.data.len() + 1) as nat) + seq![0xffu8, id_tag(p.id)] + p.data
}

/// One packet's chunk: binary data goes Base64 under text framing unless
/// the client took XHR2 and did not force Base64; everything else goes XHR2
/// framing when the client took it, text framing otherwise.
pub open spec fn spec_frame_packet(p: PacketV, jsonp: bool, b64: bool, xhr2: bool) -> Seq<u8> {
    if (b64 || !xhr2) && spec_is_binary(p) {
        spec_frame_text(p, jsonp)
    } else if xhr2 {
        spec_frame_xhr2(p)
    } else {
        spec_frame_text(p, jsonp)
    }
}

/// The chunks of a whole payload, in packet order.
pub open spec fn spec_frames(ps: Seq<PacketV>, jsonp: bool, b64: bool, xhr2: bool) -> Seq<u8>
    decreases ps.len(),
{
    if ps.len() == 0 {
        Seq::<u8>::empty()
    } else {
        spec_frame_packet(ps[0], jsonp, b64, xhr2) + spec_frames(ps.skip(1), jsonp, b64, xhr2)
    }
}

/// The JSONP wrapper's opening: `___eio[<index>]("`.
pub open spec fn jsonp_prefix(j: int) -> Seq<u8>
    recommends
        j >= 0,
{
    seq![0x5fu8, 0x5fu8, 0x5fu8, 0x65u8, 0x69u8, 0x6fu8, 0x5bu8] + dec_digits(j as nat)
        + seq![0x5du8, 0x28u8, 0x22u8]
}

/// The JSONP wrapper's closing: `");`.
pub open spec fn jsonp_suffix() -> Seq<u8> {
    seq![0x22u8, 0x29u8, 0x3bu8]
}

/// A whole encoded payload: the framed chunks, inside the JSONP wrapper
/// when an index was given.
pub open spec fn spec_encode_payload(
    ps: Seq<PacketV>,
    jsonp_index: Option<i32>,
    b64: bool,
    xhr2: bool,
) -> Seq<u8> {
    match jsonp_index {
        Some(j) => jsonp_prefix(j as int) + spec_frames(ps, true, b64, xhr2) + jsonp_suffix(),
        None => spec_frames(ps, false, b64, xhr2),
    }
}

/// Escapes quotes as executable code.
fn escape_quotes_exec(data: &[u8]) -> (r: Vec<u8>)
    ensures
        r@ == escape_quotes(data@),
{
    let mut r: Vec<u8> = Vec::new();
    let mut i: usize = 0;
    proof {
        assert(data@.skip(0) =~= data@);
        assert(r@ + escape_quotes(data@) =~= escape_quotes(data@));
    }
    while i < data.len()
        invariant
            0 <= i <= data@.len(),
            escape_quotes(data@) == r@ + escape_quotes(data@.skip(i as int)),
        decreases data@.len() - i,
    {
        let b = data[i];
        let ghost pre = r@;
        let ghost suffix = data@.skip(i as int);
        proof {
            assert(suffix[0] == b);
            assert(suffix.skip(1) =~= data@.skip(i as int + 1));
        }
        if b == 0x22 {
            r.push(0x5c);
            r.push(0x22);
            proof {
                assert(r@ =~= pre + seq![0x5cu8, 0x22u8]);
                assert(pre + (seq![0x5cu8, 0x22u8] + escape_quotes(suffix.skip(1))) =~= r@
                    + escape_quotes(suffix.skip(1)));
            }
        } else {
            r.push(b);
            proof {
                assert(r@ =~= pre + seq![b]);
                assert(pre + (seq![b] + escape_quotes(suffix.skip(1))) =~= r@ + escape_quotes(
                    suffix.skip(1),
                ));
            }
        }
        i = i + 1;
    }
    proof {
        assert(data@.skip(data@.len() as int) =~= Seq::<u8>::empty());
        assert(r@ + escape_quotes(Seq::<u8>::empty()) =~= r@);
    }
    r
}

/// Appending one more packet appends one more chunk.
proof fn lemma_frames_snoc(ps: Seq<PacketV>, jsonp: bool, b64: bool, xhr2: bool)
    requires
        ps.len() > 0,
    ensures
        spec_frames(ps, jsonp, b64, xhr2) == spec_frames(ps.drop_last(), jsonp, b64, xhr2)
            + spec_frame_packet(ps.last(), jsonp, b64, xhr2),
    decreases ps.len(),
{
    if ps.len() == 1 {
        assert(ps.drop_last() =~= Seq::<PacketV>::empty());
        assert(ps.skip(1) =~= Seq::<PacketV>::empty());
        assert(spec_frames(ps.skip(1), jsonp, b64, xhr2) == Seq::<u8>::empty());
        assert(spec_frames(ps, jsonp, b64, xhr2) =~= spec_frame_packet(ps[0], jsonp, b64, xhr2));
        assert(spec_frames(ps.drop_last(), jsonp, b64, xhr2) + spec_frame_packet(
            ps.last(),
            jsonp,
            b64,
            xhr2,
        ) =~= spec_frame_packet(ps[0], jsonp, b64, xhr2));
    } else {
        lemma_frames_snoc(ps.skip(1), jsonp, b64, xhr2);
        assert(ps.skip(1).drop_last() =~= ps.drop_last().skip(1));
        assert(ps.skip(1).last() == ps.last());
        assert(ps.drop_last()[0] == ps[0]);
        assert(ps.drop_last().len() > 0);
        assert(spec_frames(ps.drop_last(), jsonp, b64, xhr2) == spec_frame_packet(
            ps[0],
            jsonp,
            b64,
            xhr2,
        ) + spec_frames(ps.drop_last().skip(1), jsonp, b64, xhr2));
        assert(spec_frame_packet(ps[0], jsonp, b64, xhr2) + (spec_frames(
            ps.drop_last().skip(1),
            jsonp,
            b64,
            xhr2,
        ) + spec_frame_packet(ps.last(), jsonp, b64, xhr2)) =~= (spec_frame_packet(
            ps[0],
            jsonp,
            b64,
            xhr2,
        ) + spec_frames(ps.drop_last().skip(1), jsonp, b64, xhr2)) + spec_frame_packet(
            ps.last(),
            jsonp,
            b64,
            xhr2,
        ));
    }
}

/// Encodes a payload: every packet framed in order, wrapped for JSONP when
/// an index was given. Binary data goes Base64 under text framing when the
/// client forced Base64 or did not take XHR2, and XHR2 framing otherwise.
#[verifier::rlimit(100)]
pub fn encode_payload(packets: &Vec<Packet>, jsonp_index: Option<i32>, b64: bool, xhr2: bool) -> (r:
    Payload)
    requires
        jsonp_index matches Some(j) ==> j >= 0,
        forall|k: int| 0 <= k < packets@.len() ==> (#[trigger] packets@[k]).data@.len() < usize::MAX,
    ensures
        r@ == spec_encode_payload(views(packets@), jsonp_index, b64, xhr2),
{
    let mut data: Vec<u8> = Vec::new();
    let jsonp_on = jsonp_index.is_some();
    if let Some(idx) = jsonp_index {
        data.push(0x5f);
        data.push(0x5f);
        data.push(0x5f);
        data.push(0x65);
        data.push(0x69);
        data.push(0x6f);
        data.push(0x5b);
        let digits = crate::decimal::usize_to_decimal(idx as usize);
        push_all(&mut data, digits.as_slice());
        data.push(0x5d);
        data.push(0x28);
        data.push(0x22);
        proof {
            assert(data@ =~= jsonp_prefix(idx as int));
        }
    }
    let ghost prefix = data@;
    let ghost ps = views(packets@);
    let mut i: usize = 0;
    proof {
        assert(ps.take(0) =~= Seq::<PacketV>::empty());
        assert(prefix + spec_frames(ps.take(0), jsonp_on, b64, xhr2) =~= data@);
    }
    while i < packets.len()
        invariant
            0 <= i <= packets@.len(),
            ps == views(packets@),
            jsonp_index matches Some(j) ==> j >= 0,
            forall|k: int|
                0 <= k < packets@.len() ==> (#[trigger] packets@[k]).data@.len() < usize::MAX,
            jsonp_on == (jsonp_index is Some),
            data@ == prefix + spec_frames(ps.take(i as int), jsonp_on, b64, xhr2),
        decreases packets@.len() - i,
    {
        let p = &packets[i];
        let ghost pre = data@;
        let ghost pv = ps[i as int];
        proof {
            assert(pv == p@);
            assert(p.data@.len() < usize::MAX);
        }
        let binary = p.is_binary();
        if binary && (b64 || !xhr2) {
            let enc = base64::encode(p.data.as_slice());
            let el = enc.len();
            proof {
                base64::lemma_encode_len_multiple(p.data@);
                assert(el % 4 == 0);
                assert(el < usize::MAX) by {
                    if el == usize::MAX {
                        assert(usize::MAX % 4 == 3);
                    }
                }
            }
            let digits = crate::decimal::usize_to_decimal(el + 1);
            push_all(&mut data, digits.as_slice());
            data.push(0x3a);
            data.push(0x62);
            data.push(p.id.tag());
            push_all(&mut data, enc.as_slice());
            proof {
                assert(data@ =~= pre + spec_frame_text(pv, jsonp_on));
                assert(spec_frame_packet(pv, jsonp_on, b64, xhr2) == spec_frame_text(pv, jsonp_on));
            }
        } else if xhr2 {
            data.push(if binary { 1 } else { 0 });
            let digits = crate::decimal::usize_to_raw_decimal(p.data.len() + 1);
            push_all(&mut data, digits.as_slice());
            data.push(0xff);
            data.push(p.id.tag());
            push_all(&mut data, p.data.as_slice());
            proof {
                assert(data@ =~= pre + spec_frame_xhr2(pv));
                assert(spec_frame_packet(pv, jsonp_on, b64, xhr2) == spec_frame_xhr2(pv));
            }
        } else {
            let digits = crate::decimal::usize_to_decimal(p.data.len() + 1);
            push_all(&mut data, digits.as_slice());
            data.push(0x3a);
            data.push(p.id.tag());
            if jsonp_on {
                let esc = escape_quotes_exec(p.data.as_slice());
                push_all(&mut data, esc.as_slice());
            } else {
                push_all(&mut data, p.data.as_slice());
            }
            proof {
                assert(data@ =~= pre + spec_frame_text(pv, jsonp_on));
                assert(spec_frame_packet(pv, jsonp_on, b64, xhr2) == spec_frame_text(pv, jsonp_on));
            }
        }
        proof {
            lemma_frames_snoc(ps.take(i as int + 1), jsonp_on, b64, xhr2);
            assert(ps.take(i as int + 1).drop_last() =~= ps.take(i as int));
            assert(ps.take(i as int + 1).last() == pv);
            assert(prefix + (spec_frames(ps.take(i as int), jsonp_on, b64, xhr2) + spec_frame_packet(
                pv,
                jsonp_on,
                b64,
                xhr2,
            )) =~= pre + spec_frame_packet(pv, jsonp_on, b64, xhr2));
        }
        i = i + 1;
    }
    proof {
        assert(ps.take(packets@.len() as int) =~= ps);
    }
    if jsonp_on {
        data.push(0x22);
        data.push(0x29);
        data.push(0x3b);
        proof {
            assert(data@ =~= prefix + spec_frames(ps, true, b64, xhr2) + jsonp_suffix());
            assert(data@ =~= spec_encode_payload(ps, jsonp_index, b64, xhr2));
        }
    } else {
        proof {
            assert(data@ =~= spec_encode_payload(ps, jsonp_index, b64, xhr2));
        }
    }
    Payload(data)
}

/// The packets read from a payload in text framing. Each chunk declares a
/// length in ASCII digits, then `':'`, then that many body bytes — one more
/// when the body starts with the `'b'` marker, which stands outside the
/// count. A valid payload ends exactly at the end of the input.
pub open spec fn spec_decode_chunks(s: Seq<u8>) -> Result<Seq<PacketV>, Error>
    decreases s.len(),
    via spec_decode_chunks_decreases
{
    if s.len() == 0 {
        Ok(Seq::<PacketV>::empty())
    } else {
        let k = digit_prefix_len(s);
        if k == s.len() {
            Err(Error::IncompletePacket)
        } else if s[k] != 0x3a {
            Err(Error::InvalidLengthCharacter(s[k]))
        } else if k == 0 {
            Err(Error::InvalidLengthCharacter(0x3a))
        } else {
            let n = dec_value(s.take(k));
            let rest = s.skip(k + 1);
            let m = if rest.len() > 0 && rest[0] == 0x62 {
                n + 1
            } else {
                n
            };
            if m > rest.len() {
                Err(Error::IncompletePacket)
            } else {
                match spec_from_bytes(rest.take(m as int)) {
                    Ok(p) => match spec_decode_chunks(rest.skip(m as int)) {
                        Ok(ps) => Ok(seq![p] + ps),
                        Err(e) => Err(e),
                    },
                    Err(e) => Err(e),
                }
            }
        }
    }
}

#[via_fn]
proof fn spec_decode_chunks_decreases(s: Seq<u8>) {
    crate::decimal::lemma_digit_prefix_len_bounds(s);
}

/// The packets read from a payload in XHR2 binary framing: a flag byte 0 or
/// 1, raw length digits, `0xFF`, then the tag digit and the data.
pub open spec fn spec_decode_xhr2(s: Seq<u8>) -> Result<Seq<PacketV>, Error>
    decreases s.len(),
    via spec_decode_xhr2_decreases
{
    if s.len() == 0 {
        Ok(Seq::<PacketV>::empty())
    } else if s[0] != 0 && s[0] != 1 {
        Err(Error::InvalidPacketID(s[0]))
    } else {
        let rest = s.skip(1);
        let k = raw_digit_prefix_len(rest);
        if k == rest.len() {
            Err(Error::IncompletePacket)
        } else if rest[k] != 0xff {
            Err(Error::InvalidLengthDigit(rest[k] as u32))
        } else if k == 0 {
            Err(Error::InvalidLengthDigit(0xff))
        } else {
            let n = raw_value(rest.take(k));
            let body = rest.skip(k + 1);
            if n > body.len() {
                Err(Error::IncompletePacket)
            } else if n == 0 {
                Err(Error::EmptyPacket)
            } else if !(0x30 <= body[0] <= 0x36) {
                Err(Error::InvalidPacketID(body[0]))
            } else {
                match spec_decode_xhr2(body.skip(n as int)) {
                    Ok(ps) => Ok(
                        seq![PacketV { id: tag_id(body[0]), data: body.take(n as int).skip(1) }]
                            + ps,
                    ),
                    Err(e) => Err(e),
                }
            }
        }
    }
}

#[via_fn]
proof fn spec_decode_xhr2_decreases(s: Seq<u8>) {
    if s.len() > 0 {
        crate::decimal::lemma_raw_digit_prefix_len_bounds(s.skip(1));
    }
}

/// The packets read from a payload: the empty payload is refused, then the
/// framing is XHR2 when the client took it and text otherwise.
pub open spec fn spec_decode_payload(s: Seq<u8>, b64: bool, xhr2: bool) -> Result<
    Seq<PacketV>,
    Error,
> {
    if s.len() == 0 {
        Err(Error::EmptyPacket)
    } else if xhr2 {
        spec_decode_xhr2(s)
    } else {
        spec_decode_chunks(s)
    }
}

/// The models of a decoding's outcome.
pub open spec fn result_views(r: Result<Vec<Packet>, Error>) -> Result<Seq<PacketV>, Error> {
    match r {
        Ok(ps) => Ok(views(ps@)),
        Err(e) => Err(e),
    }
}

/// Decodes a payload into its packets, exactly as `spec_decode_payload`
/// reads it; every malformed input gets the error that the framing rules
/// name for it.
pub fn decode_payload(data: Vec<u8>, b64: bool, xhr2: bool) -> (r: Result<Vec<Packet>, Error>)
    ensures
        result_views(r) == spec_decode_payload(data@, b64, xhr2),
{
    if data.len() == 0 {
        return Err(Error::EmptyPacket);
    }
    if xhr2 {
        decode_xhr2_frames(&data)
    } else {
        decode_text_frames(&data)
    }
}

/// Reads every text-framing chunk of `data`.
#[verifier::rlimit(100)]
fn decode_text_frames(data: &Vec<u8>) -> (r: Result<Vec<Packet>, Error>)
    ensures
        result_views(r) == spec_decode_chunks(data@),
{
    let len = data.len();
    let mut packets: Vec<Packet> = Vec::new();
    let mut i: usize = 0;
    proof {
        assert(data@.skip(0) =~= data@);
        assert(forall|w: Seq<PacketV>| views(packets@) + w =~= w);
    }
    while i < len
        invariant
            0 <= i <= len,
            len == data@.len(),
            forall|w: Seq<PacketV>|
                spec_decode_chunks(data@.skip(i as int)) == Ok::<Seq<PacketV>, Error>(w)
                    ==> spec_decode_chunks(data@) == Ok::<Seq<PacketV>, Error>(
                    views(packets@) + w,
                ),
            forall|e: Error|
                spec_decode_chunks(data@.skip(i as int)) == Err::<Seq<PacketV>, Error>(e)
                    ==> spec_decode_chunks(data@) == Err::<Seq<PacketV>, Error>(e),
        decreases len - i,
    {
        let ghost s = data@.skip(i as int);
        // scan the ASCII digits of the declared length
        let mut j: usize = i;
        let mut n: usize = 0;
        let mut overflow: bool = false;
        while j < len && 0x30 <= data[j] && data[j] <= 0x39
            invariant
                i <= j <= len,
                len == data@.len(),
                forall|m: int| i <= m < j ==> is_ascii_digit(#[trigger] data@[m]),
                !overflow ==> n as nat == dec_value(data@.subrange(i as int, j as int)),
                overflow ==> dec_value(data@.subrange(i as int, j as int)) > usize::MAX,
            decreases len - j,
        {
            let d = (data[j] - 0x30) as usize;
            let ghost prevv = dec_value(data@.subrange(i as int, j as int));
            proof {
                assert(data@.subrange(i as int, j as int + 1).drop_last() =~= data@.subrange(
                    i as int,
                    j as int,
                ));
                assert(data@.subrange(i as int, j as int + 1).last() == data@[j as int]);
                assert(dec_value(data@.subrange(i as int, j as int + 1)) == prevv * 10 + d);
            }
            if !overflow && n <= (usize::MAX - d) / 10 {
                proof {
                    assert(n * 10 + d <= usize::MAX) by (nonlinear_arith)
                        requires
                            n <= (usize::MAX - d) / 10,
                            d <= 9,
                    ;
                }
                n = n * 10 + d;
            } else {
                proof {
                    if overflow {
                        assert(prevv * 10 + d > usize::MAX) by (nonlinear_arith)
                            requires
                                prevv > usize::MAX,
                                d >= 0,
                        ;
                    } else {
                        assert(n * 10 + d > usize::MAX) by (nonlinear_arith)
                            requires
                                n > (usize::MAX - d) / 10,
                                0 <= d <= 9,
                                n <= usize::MAX,
                        ;
                    }
                }
                overflow = true;
            }
            j = j + 1;
        }
        proof {
            assert(forall|m: int| 0 <= m < j - i ==> is_ascii_digit(#[trigger] s[m])) by {
                assert(forall|m: int|
                    0 <= m < j - i ==> #[trigger] s[m] == data@[i as int + m] && is_ascii_digit(
                        data@[i as int + m],
                    ));
            }
            if j < len {
                assert(s[j - i] == data@[j as int]);
                assert(!is_ascii_digit(data@[j as int]));
            }
            lemma_digit_prefix_len(s, j as int - i as int);
            assert(s.take(j as int - i as int) =~= data@.subrange(i as int, j as int));
        }
        if j == len {
            proof {
                assert(spec_decode_chunks(s) == Err::<Seq<PacketV>, Error>(
                    Error::IncompletePacket,
                ));
            }
            return Err(Error::IncompletePacket);
        }
        let b = data[j];
        if b != 0x3a {
            proof {
                assert(spec_decode_chunks(s) == Err::<Seq<PacketV>, Error>(
                    Error::InvalidLengthCharacter(b),
                ));
            }
            return Err(Error::InvalidLengthCharacter(b));
        }
        if j == i {
            proof {
                assert(spec_decode_chunks(s) == Err::<Seq<PacketV>, Error>(
                    Error::InvalidLengthCharacter(0x3a),
                ));
            }
            return Err(Error::InvalidLengthCharacter(0x3a));
        }
        let rest_len = len - j - 1;
        let bflag = j + 1 < len && data[j + 1] == 0x62;
        let ghost nv = dec_value(s.take(j as int - i as int));
        let ghost rest = s.skip(j as int - i as int + 1);
        let ghost mv: nat = if bflag {
            (nv + 1) as nat
        } else {
            nv
        };
        proof {
            assert(rest =~= data@.skip(j as int + 1));
            assert(rest.len() == rest_len);
            if rest_len > 0 {
                assert(rest[0] == data@[j as int + 1]);
            }
        }
        if overflow {
            proof {
                assert(nv > usize::MAX >= rest_len);
                assert(spec_decode_chunks(s) == Err::<Seq<PacketV>, Error>(
                    Error::IncompletePacket,
                ));
            }
            return Err(Error::IncompletePacket);
        }
        if bflag && n >= rest_len {
            proof {
                assert(mv > rest.len());
                assert(spec_decode_chunks(s) == Err::<Seq<PacketV>, Error>(
                    Error::IncompletePacket,
                ));
            }
            return Err(Error::IncompletePacket);
        }
        if !bflag && n > rest_len {
            proof {
                assert(spec_decode_chunks(s) == Err::<Seq<PacketV>, Error>(
                    Error::IncompletePacket,
                ));
            }
            return Err(Error::IncompletePacket);
        }
        let m = if bflag {
            n + 1
        } else {
            n
        };
        let chunk = slice_subrange(data.as_slice(), j + 1, j + 1 + m);
        proof {
            assert(chunk@ =~= rest.take(mv as int));
            assert(rest.skip(mv as int) =~= data@.skip(j as int + 1 + m as int));
        }
        match Packet::from_bytes(chunk) {
            Ok(p) => {
                let ghost old_packets = packets@;
                packets.push(p);
                proof {
                    assert(views(packets@) =~= views(old_packets) + seq![p@]);
                    assert(spec_decode_chunks(s) == match spec_decode_chunks(
                        rest.skip(mv as int),
                    ) {
                        Ok(ps) => Ok::<Seq<PacketV>, Error>(seq![p@] + ps),
                        Err(e) => Err::<Seq<PacketV>, Error>(e),
                    });
                    assert forall|w: Seq<PacketV>|
                        spec_decode_chunks(data@.skip(j as int + 1 + m as int)) == Ok::<
                            Seq<PacketV>,
                            Error,
                        >(w) implies spec_decode_chunks(data@) == Ok::<Seq<PacketV>, Error>(
                        views(packets@) + w,
                    ) by {
                        assert(spec_decode_chunks(s) == Ok::<Seq<PacketV>, Error>(seq![p@] + w));
                        assert(views(old_packets) + (seq![p@] + w) =~= views(packets@) + w);
                    }
                }
                i = j + 1 + m;
            },
            Err(e) => {
                proof {
                    assert(spec_decode_chunks(s) == Err::<Seq<PacketV>, Error>(e));
                }
                return Err(e);
            },
        }
    }
    proof {
        assert(data@.skip(len as int) =~= Seq::<u8>::empty());
        assert(spec_decode_chunks(Seq::<u8>::empty()) == Ok::<Seq<PacketV>, Error>(
            Seq::<PacketV>::empty(),
        ));
        assert(views(packets@) + Seq::<PacketV>::empty() =~= views(packets@));
    }
    Ok(packets)
}

/// Reads every XHR2-framing chunk of `data`.
#[verifier::rlimit(100)]
fn decode_xhr2_frames(data: &Vec<u8>) -> (r: Result<Vec<Packet>, Error>)
    ensures
        result_views(r) == spec_decode_xhr2(data@),
{
    let len = data.len();
    let mut packets: Vec<Packet> = Vec::new();
    let mut i: usize = 0;
    proof {
        assert(data@.skip(0) =~= data@);
        assert(forall|w: Seq<PacketV>| views(packets@) + w =~= w);
    }
    while i < len
        invariant
            0 <= i <= len,
            len == data@.len(),
            forall|w: Seq<PacketV>|
                spec_decode_xhr2(data@.skip(i as int)) == Ok::<Seq<PacketV>, Error>(w)
                    ==> spec_decode_xhr2(data@) == Ok::<Seq<PacketV>, Error>(views(packets@) + w),
            forall|e: Error|
                spec_decode_xhr2(data@.skip(i as int)) == Err::<Seq<PacketV>, Error>(e)
                    ==> spec_decode_xhr2(data@) == Err::<Seq<PacketV>, Error>(e),
        decreases len - i,
    {
        let ghost s = data@.skip(i as int);
        let flag = data[i];
        proof {
            assert(s[0] == flag);
        }
        if flag != 0 && flag != 1 {
            proof {
                assert(spec_decode_xhr2(s) == Err::<Seq<PacketV>, Error>(
                    Error::InvalidPacketID(flag),
                ));
            }
            return Err(Error::InvalidPacketID(flag));
        }
        let ghost srest = s.skip(1);
        proof {
            assert(srest =~= data@.skip(i as int + 1));
        }
        // scan the raw digits of the declared length
        let mut j: usize = i + 1;
        let mut n: usize = 0;
        let mut overflow: bool = false;
        while j < len && data[j] <= 9
            invariant
                i + 1 <= j <= len,
                len == data@.len(),
                forall|m: int| i + 1 <= m < j ==> is_raw_digit(#[trigger] data@[m]),
                !overflow ==> n as nat == raw_value(data@.subrange(i as int + 1, j as int)),
                overflow ==> raw_value(data@.subrange(i as int + 1, j as int)) > usize::MAX,
            decreases len - j,
        {
            let d = data[j] as usize;
            let ghost prevv = raw_value(data@.subrange(i as int + 1, j as int));
            proof {
                assert(data@.subrange(i as int + 1, j as int + 1).drop_last() =~= data@.subrange(
                    i as int + 1,
                    j as int,
                ));
                assert(data@.subrange(i as int + 1, j as int + 1).last() == data@[j as int]);
                assert(raw_value(data@.subrange(i as int + 1, j as int + 1)) == prevv * 10 + d);
            }
            if !overflow && n <= (usize::MAX - d) / 10 {
                proof {
                    assert(n * 10 + d <= usize::MAX) by (nonlinear_arith)
                        requires
                            n <= (usize::MAX - d) / 10,
                            d <= 9,
                    ;
                }
                n = n * 10 + d;
            } else {
                proof {
                    if overflow {
                        assert(prevv * 10 + d > usize::MAX) by (nonlinear_arith)
                            requires
                                prevv > usize::MAX,
                                d >= 0,
                        ;
                    } else {
                        assert(n * 10 + d > usize::MAX) by (nonlinear_arith)
                            requires
                                n > (usize::MAX - d) / 10,
                                0 <= d <= 9,
                                n <= usize::MAX,
                        ;
                    }
                }
                overflow = true;
            }
            j = j + 1;
        }
        proof {
            assert(forall|m: int| 0 <= m < j - i - 1 ==> is_raw_digit(#[trigger] srest[m])) by {
                assert(forall|m: int|
                    0 <= m < j - i - 1 ==> #[trigger] srest[m] == data@[i as int + 1 + m]
                        && is_raw_digit(data@[i as int + 1 + m]));
            }
            if j < len {
                assert(srest[j - i - 1] == data@[j as int]);
                assert(!is_raw_digit(data@[j as int]));
            }
            lemma_raw_digit_prefix_len(srest, j as int - i as int - 1);
            assert(srest.take(j as int - i as int - 1) =~= data@.subrange(i as int + 1, j as int));
        }
        if j == len {
            proof {
                assert(spec_decode_xhr2(s) == Err::<Seq<PacketV>, Error>(Error::IncompletePacket));
            }
            return Err(Error::IncompletePacket);
        }
        let b = data[j];
        if b != 0xff {
            proof {
                assert(spec_decode_xhr2(s) == Err::<Seq<PacketV>, Error>(
                    Error::InvalidLengthDigit(b as u32),
                ));
            }
            return Err(Error::InvalidLengthDigit(b as u32));
        }
        if j == i + 1 {
            proof {
                assert(spec_decode_xhr2(s) == Err::<Seq<PacketV>, Error>(
                    Error::InvalidLengthDigit(0xff),
                ));
            }
            return Err(Error::InvalidLengthDigit(0xff));
        }
        let rest_len = len - j - 1;
        let ghost nv = raw_value(srest.take(j as int - i as int - 1));
        let ghost body = srest.skip(j as int - i as int);
        proof {
            assert(body =~= data@.skip(j as int + 1));
            assert(body.len() == rest_len);
        }
        if overflow {
            proof {
                assert(nv > usize::MAX >= rest_len);
                assert(spec_decode_xhr2(s) == Err::<Seq<PacketV>, Error>(Error::IncompletePacket));
            }
            return Err(Error::IncompletePacket);
        }
        if n > rest_len {
            proof {
                assert(spec_decode_xhr2(s) == Err::<Seq<PacketV>, Error>(Error::IncompletePacket));
            }
            return Err(Error::IncompletePacket);
        }
        if n == 0 {
            proof {
                assert(spec_decode_xhr2(s) == Err::<Seq<PacketV>, Error>(Error::EmptyPacket));
            }
            return Err(Error::EmptyPacket);
        }
        let tag = data[j + 1];
        proof {
            assert(body[0] == tag);
        }
        let id = match u8_to_id(tag) {
            Ok(id) => id,
            Err(e) => {
                proof {
                    assert(spec_decode_xhr2(s) == Err::<Seq<PacketV>, Error>(
                        Error::InvalidPacketID(tag),
                    ));
                }
                return Err(e);
            },
        };
        let pdata = slice_to_vec(slice_subrange(data.as_slice(), j + 2, j + 1 + n));
        let ghost old_packets = packets@;
        let p = Packet { id, data: pdata };
        packets.push(p);
        proof {
            assert(p@.data =~= body.take(n as int).skip(1));
            assert(p@ == PacketV { id: tag_id(tag), data: body.take(n as int).skip(1) });
            assert(body.skip(n as int) =~= data@.skip(j as int + 1 + n as int));
            assert(views(packets@) =~= views(old_packets) + seq![p@]);
            assert(spec_decode_xhr2(s) == match spec_decode_xhr2(body.skip(n as int)) {
                Ok(ps) => Ok::<Seq<PacketV>, Error>(seq![p@] + ps),
                Err(e) => Err::<Seq<PacketV>, Error>(e),
            });
            assert forall|w: Seq<PacketV>|
                spec_decode_xhr2(data@.skip(j as int + 1 + n as int)) == Ok::<Seq<PacketV>, Error>(
                    w,
                ) implies spec_decode_xhr2(data@) == Ok::<Seq<PacketV>, Error>(
                views(packets@) + w,
            ) by {
                assert(spec_decode_xhr2(s) == Ok::<Seq<PacketV>, Error>(seq![p@] + w));
                assert(views(old_packets) + (seq![p@] + w) =~= views(packets@) + w);
            }
        }
        i = j + 1 + n;
    }
    proof {
        assert(data@.skip(len as int) =~= Seq::<u8>::empty());
        assert(spec_decode_xhr2(Seq::<u8>::empty()) == Ok::<Seq<PacketV>, Error>(
            Seq::<PacketV>::empty(),
        ));
        assert(views(packets@) + Seq::<PacketV>::empty() =~= views(packets@));
    }
    Ok(packets)
}

/// The `'b'`-prefixed encoding of a binary packet.
pub open spec fn spec_encode_packet_b64(p: PacketV) -> Seq<u8> {
    seq![0x62u8, id_tag(p.id)] + base64::b64_encode(p.data)
}

/// Decoding a Base64-framed packet body gives the packet back.
pub proof fn lemma_packet_roundtrip_b64(p: PacketV)
    ensures
        spec_from_bytes(spec_encode_packet_b64(p)) == Ok::<PacketV, Error>(p),
{
    let bytes = spec_encode_packet_b64(p);
    assert(bytes[0] == 0x62);
    assert(bytes.len() >= 2);
    assert(bytes[1] == id_tag(p.id));
    assert(0x30 <= bytes[1] <= 0x36);
    assert(tag_id(id_tag(p.id)) == p.id);
    assert(bytes.skip(2) =~= base64::b64_encode(p.data));
    base64::lemma_b64_roundtrip(p.data);
}

/// Decoding one text-framing chunk consumes exactly that chunk and yields
/// exactly its packet, whatever follows.
#[verifier::rlimit(100)]
proof fn lemma_chunk_roundtrip_text(p: PacketV, rest: Seq<u8>)
    ensures
        spec_decode_chunks(spec_frame_text(p, false) + rest) == (match spec_decode_chunks(rest) {
            Ok(ps) => Ok::<Seq<PacketV>, Error>(seq![p] + ps),
            Err(e) => Err::<Seq<PacketV>, Error>(e),
        }),
{
    let frame = spec_frame_text(p, false);
    let s = frame + rest;
    if spec_is_binary(p) {
        let enc = base64::b64_encode(p.data);
        let digits = dec_digits((enc.len() + 1) as nat);
        let k = digits.len() as int;
        crate::decimal::lemma_dec_digits_are_digits((enc.len() + 1) as nat);
        assert(frame =~= digits + seq![0x3au8] + spec_encode_packet_b64(p));
        assert(forall|m: int| 0 <= m < k ==> is_ascii_digit(#[trigger] s[m]));
        assert(s[k] == 0x3a);
        assert(!is_ascii_digit(0x3a));
        lemma_digit_prefix_len(s, k);
        assert(s.take(k) =~= digits);
        crate::decimal::lemma_dec_value_of_digits((enc.len() + 1) as nat);
        let srest = s.skip(k + 1);
        assert(srest =~= spec_encode_packet_b64(p) + rest);
        assert(srest[0] == 0x62);
        let m = enc.len() + 2;
        assert(srest.len() == m + rest.len());
        assert(srest.take(m as int) =~= spec_encode_packet_b64(p));
        lemma_packet_roundtrip_b64(p);
        assert(srest.skip(m as int) =~= rest);
    } else {
        let digits = dec_digits((p.data.len() + 1) as nat);
        let k = digits.len() as int;
        crate::decimal::lemma_dec_digits_are_digits((p.data.len() + 1) as nat);
        assert(frame =~= digits + seq![0x3au8] + spec_encode_packet(p));
        assert(forall|m: int| 0 <= m < k ==> is_ascii_digit(#[trigger] s[m]));
        assert(s[k] == 0x3a);
        assert(!is_ascii_digit(0x3a));
        lemma_digit_prefix_len(s, k);
        assert(s.take(k) =~= digits);
        crate::decimal::lemma_dec_value_of_digits((p.data.len() + 1) as nat);
        let srest = s.skip(k + 1);
        assert(srest =~= spec_encode_packet(p) + rest);
        assert(srest[0] == id_tag(p.id));
        assert(srest[0] != 0x62);
        let m = p.data.len() + 1;
        assert(srest.len() == m + rest.len());
        assert(srest.take(m as int) =~= spec_encode_packet(p));
        lemma_packet_roundtrip_raw(p);
        assert(srest.skip(m as int) =~= rest);
    }
}

/// Decoding the text-framing chunks of a packet sequence yields that
/// sequence, Base64 fallback included.
proof fn lemma_frames_roundtrip_text(ps: Seq<PacketV>, b64: bool)
    ensures
        spec_decode_chunks(spec_frames(ps, false, b64, false)) == Ok::<Seq<PacketV>, Error>(ps),
    decreases ps.len(),
{
    if ps.len() == 0 {
        assert(spec_frames(ps, false, b64, false) =~= Seq::<u8>::empty());
        assert(ps =~= Seq::<PacketV>::empty());
    } else {
        lemma_frames_roundtrip_text(ps.skip(1), b64);
        assert(spec_frame_packet(ps[0], false, b64, false) == spec_frame_text(ps[0], false));
        lemma_chunk_roundtrip_text(ps[0], spec_frames(ps.skip(1), false, b64, false));
        assert(seq![ps[0]] + ps.skip(1) =~= ps);
    }
}

/// A text-framing chunk is never empty.
proof fn lemma_frame_text_nonempty(p: PacketV)
    ensures
        spec_frame_text(p, false).len() > 0,
{
    if spec_is_binary(p) {
        crate::decimal::lemma_dec_digits_are_digits(
            (base64::b64_encode(p.data).len() + 1) as nat,
        );
    } else {
        crate::decimal::lemma_dec_digits_are_digits((p.data.len() + 1) as nat);
    }
}

/// Decoding an encoded payload gives the packets back: text framing, with
/// binary data through the Base64 fallback, no JSONP wrapper, for any
/// non-empty packet sequence and either value of the Base64 flag. (The
/// empty sequence encodes to the empty payload, which decoding refuses.)
pub proof fn lemma_payload_roundtrip_text(ps: Seq<PacketV>, b64: bool)
    requires
        ps.len() > 0,
    ensures
        spec_decode_payload(spec_encode_payload(ps, None, b64, false), b64, false) == Ok::<
            Seq<PacketV>,
            Error,
        >(ps),
{
    let body = spec_frames(ps, false, b64, false);
    assert(spec_frame_packet(ps[0], false, b64, false) == spec_frame_text(ps[0], false));
    lemma_frame_text_nonempty(ps[0]);
    assert(body.len() > 0);
    lemma_frames_roundtrip_text(ps, b64);
}

/// Decoding one XHR2 chunk consumes exactly that chunk and yields exactly
/// its packet, whatever follows.
#[verifier::rlimit(100)]
proof fn lemma_chunk_roundtrip_xhr2(p: PacketV, rest: Seq<u8>)
    ensures
        spec_decode_xhr2(spec_frame_xhr2(p) + rest) == (match spec_decode_xhr2(rest) {
            Ok(ps) => Ok::<Seq<PacketV>, Error>(seq![p] + ps),
            Err(e) => Err::<Seq<PacketV>, Error>(e),
        }),
{
    let frame = spec_frame_xhr2(p);
    let s = frame + rest;
    let digits = crate::decimal::raw_digits((p.data.len() + 1) as nat);
    let k = digits.len() as int;
    crate::decimal::lemma_raw_digits_are_digits((p.data.len() + 1) as nat);
    assert(s[0] == 0 || s[0] == 1);
    let srest = s.skip(1);
    assert(srest =~= digits + seq![0xffu8, id_tag(p.id)] + p.data + rest);
    assert(forall|m: int| 0 <= m < k ==> is_raw_digit(#[trigger] srest[m]));
    assert(srest[k] == 0xff);
    assert(!is_raw_digit(0xff));
    lemma_raw_digit_prefix_len(srest, k);
    assert(srest.take(k) =~= digits);
    crate::decimal::lemma_raw_value_of_digits((p.data.len() + 1) as nat);
    let n = (p.data.len() + 1) as int;
    let body = srest.skip(k + 1);
    assert(body =~= seq![id_tag(p.id)] + p.data + rest);
    assert(body.len() == n + rest.len());
    assert(body[0] == id_tag(p.id));
    assert(0x30 <= body[0] <= 0x36);
    assert(tag_id(id_tag(p.id)) == p.id);
    assert(body.take(n).skip(1) =~= p.data);
    assert(body.skip(n) =~= rest);
}

/// Decoding the XHR2 chunks of a packet sequence yields that sequence.
proof fn lemma_frames_roundtrip_xhr2(ps: Seq<PacketV>)
    ensures
        spec_decode_xhr2(spec_frames(ps, false, false, true)) == Ok::<Seq<PacketV>, Error>(ps),
    decreases ps.len(),
{
    if ps.len() == 0 {
        assert(spec_frames(ps, false, false, true) =~= Seq::<u8>::empty());
        assert(ps =~= Seq::<PacketV>::empty());
    } else {
        lemma_frames_roundtrip_xhr2(ps.skip(1));
        assert(spec_frame_packet(ps[0], false, false, true) == spec_frame_xhr2(ps[0]));
        lemma_chunk_roundtrip_xhr2(ps[0], spec_frames(ps.skip(1), false, false, true));
        assert(seq![ps[0]] + ps.skip(1) =~= ps);
    }
}

/// Decoding an encoded payload gives the packets back: XHR2 binary framing,
/// Base64 not forced, no JSONP wrapper, for any non-empty packet sequence,
/// binary and text data alike. (The empty sequence encodes to the empty
/// payload, which decoding refuses.)
pub proof fn lemma_payload_roundtrip_xhr2(ps: Seq<PacketV>)
    requires
        ps.len() > 0,
    ensures
        spec_decode_payload(spec_encode_payload(ps, None, false, true), false, true) == Ok::<
            Seq<PacketV>,
            Error,
        >(ps),
{
    let body = spec_frames(ps, false, false, true);
    assert(spec_frame_packet(ps[0], false, false, true) == spec_frame_xhr2(ps[0]));
    assert(spec_frame_xhr2(ps[0]).len() > 0);
    assert(body.len() > 0);
    lemma_frames_roundtrip_xhr2(ps);
}

/// A chunk that declares more bytes than follow decodes as
/// `IncompletePacket`, never as a shorter packet.
pub proof fn lemma_length_overrun_incomplete(n: nat, rest: Seq<u8>)
    requires
        n > rest.len(),
    ensures
        spec_decode_chunks(dec_digits(n) + seq![0x3au8] + rest) == Err::<Seq<PacketV>, Error>(
            Error::IncompletePacket,
        ),
{
    let digits = dec_digits(n);
    let k = digits.len() as int;
    let s = digits + seq![0x3au8] + rest;
    crate::decimal::lemma_dec_digits_are_digits(n);
    assert(forall|m: int| 0 <= m < k ==> is_ascii_digit(#[trigger] s[m]));
    assert(s[k] == 0x3a);
    assert(!is_ascii_digit(0x3a));
    lemma_digit_prefix_len(s, k);
    assert(s.take(k) =~= digits);
    crate::decimal::lemma_dec_value_of_digits(n);
    assert(s.skip(k + 1) =~= rest);
}

} // verus!
