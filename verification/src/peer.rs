//! The peer wire protocol: the handshake, block requests, block payloads and
//! the length-prefixed message frames.
use vstd::prelude::*;

use crate::seqs::{append_bytes, bytes_to_vec};
use crate::torrent_file::SHA1_LEN;

verus! {

// ---------------------------------------------------------------------------
// Big-endian 32-bit integers
// ---------------------------------------------------------------------------

/// The four big-endian bytes of `x`.
pub open spec fn be32_bytes(x: u32) -> Seq<u8> {
    seq![
        (x / 0x100_0000) as u8,
        (x / 0x1_0000 % 0x100) as u8,
        (x / 0x100 % 0x100) as u8,
        (x % 0x100) as u8,
    ]
}

/// The number that the four bytes of `s` starting at `at` spell in big-endian order.
pub open spec fn be32_at(s: Seq<u8>, at: int) -> int {
    s[at] * 0x100_0000 + s[at + 1] * 0x1_0000 + s[at + 2] * 0x100 + s[at + 3]
}

/// Reading back the bytes of `x` gives `x`.
pub proof fn lemma_be32_roundtrip(x: u32, rest: Seq<u8>, prefix: Seq<u8>)
    ensures
        be32_at(prefix + be32_bytes(x) + rest, prefix.len() as int) == x,
{
    let s = prefix + be32_bytes(x) + rest;
    let p = prefix.len() as int;
    assert(s[p] == (x / 0x100_0000) as u8);
    assert(s[p + 1] == (x / 0x1_0000 % 0x100) as u8);
    assert(s[p + 2] == (x / 0x100 % 0x100) as u8);
    assert(s[p + 3] == (x % 0x100) as u8);
    assert(((x / 0x100_0000) as u8) as int * 0x100_0000 + ((x / 0x1_0000 % 0x100) as u8) as int
        * 0x1_0000 + ((x / 0x100 % 0x100) as u8) as int * 0x100 + ((x % 0x100) as u8) as int
        == x as int) by (bit_vector);
}

/// The big-endian bytes of `x`.
pub fn u32_to_be(x: u32) -> (r: [u8; 4])
    ensures
        r@ == be32_bytes(x),
{
    assert((x >> 24) as u8 == (x / 0x100_0000) as u8) by (bit_vector);
    assert((x >> 16) as u8 == (x / 0x1_0000 % 0x100) as u8) by (bit_vector);
    assert((x >> 8) as u8 == (x / 0x100 % 0x100) as u8) by (bit_vector);
    assert(x as u8 == (x % 0x100) as u8) by (bit_vector);
    [(x >> 24) as u8, (x >> 16) as u8, (x >> 8) as u8, x as u8]
}

/// The number that four bytes of `s`, from `at` on, spell in big-endian order.
pub fn u32_from_be(s: &[u8], at: usize) -> (r: u32)
    requires
        at + 4 <= s@.len(),
    ensures
        r as int == be32_at(s@, at as int),
{
    let b0 = s[at];
    let b1 = s[at + 1];
    let b2 = s[at + 2];
    let b3 = s[at + 3];
    let r = ((b0 as u32) << 24) | ((b1 as u32) << 16) | ((b2 as u32) << 8) | (b3 as u32);
    assert(r as int == b0 as int * 0x100_0000 + b1 as int * 0x1_0000 + b2 as int * 0x100
        + b3 as int) by (bit_vector)
        requires
            r == ((b0 as u32) << 24) | ((b1 as u32) << 16) | ((b2 as u32) << 8) | (b3 as u32),
    ;
    r
}

// ---------------------------------------------------------------------------
// Handshake
// ---------------------------------------------------------------------------

/// The number of bytes of a handshake on the wire.
pub const HANDSHAKE_LEN: usize = 68;

/// The protocol name that a handshake carries: `BitTorrent protocol`.
pub open spec fn protocol_name() -> Seq<u8> {
    seq![
        66u8, 105, 116, 84, 111, 114, 114, 101, 110, 116, 32, 112, 114, 111, 116, 111, 99, 111,
        108,
    ]
}

/// The protocol name as an array.
pub fn protocol() -> (r: [u8; 19])
    ensures
        r@ == protocol_name(),
{
    [66, 105, 116, 84, 111, 114, 114, 101, 110, 116, 32, 112, 114, 111, 116, 111, 99, 111, 108]
}

/// The opening message of a peer connection. Its wire form is its fields in
/// order: one length byte, the protocol name, eight reserved bytes, the info
/// hash and the peer id.
#[derive(Debug, Clone, Copy)]
pub struct Handshake {
    pub lenght: u8,
    pub protocol: [u8; 19],
    pub reserve: [u8; 8],
    pub info_hash: [u8; SHA1_LEN],
    pub peer_id: [u8; 20],
}

/// The wire form of a handshake.
pub open spec fn handshake_bytes(h: Handshake) -> Seq<u8> {
    seq![h.lenght] + h.protocol@ + h.reserve@ + h.info_hash@ + h.peer_id@
}

/// The fields that 68 bytes of a handshake hold, in wire order.
pub open spec fn handshake_of(s: Seq<u8>) -> (Seq<u8>, Seq<u8>, Seq<u8>, Seq<u8>, Seq<u8>) {
    (
        s.subrange(0, 1),
        s.subrange(1, 20),
        s.subrange(20, 28),
        s.subrange(28, 48),
        s.subrange(48, 68),
    )
}

/// The fields of a handshake, each as a byte sequence, in wire order.
pub open spec fn handshake_fields(h: Handshake) -> (Seq<u8>, Seq<u8>, Seq<u8>, Seq<u8>, Seq<u8>) {
    (seq![h.lenght], h.protocol@, h.reserve@, h.info_hash@, h.peer_id@)
}

fn copy_into(dst: &mut [u8; 68], at: usize, src: &[u8])
    requires
        at + src@.len() <= 68,
    ensures
        final(dst)@ == old(dst)@.subrange(0, at as int) + src@ + old(dst)@.subrange(
            at + src@.len(),
            68,
        ),
{
    let n = src.len();
    let mut i: usize = 0;
    while i < n
        invariant
            n == src@.len(),
            at + n <= 68,
            i <= n,
            dst@.len() == 68,
            forall|j: int| 0 <= j < at ==> dst@[j] == old(dst)@[j],
            forall|j: int| at + n <= j < 68 ==> dst@[j] == old(dst)@[j],
            forall|j: int| 0 <= j < i ==> dst@[at + j] == src@[j],
            forall|j: int| at + i <= j < at + n ==> dst@[j] == old(dst)@[j],
        decreases n - i,
    {
        dst[at + i] = src[i];
        i = i + 1;
    }
    assert(dst@ =~= old(dst)@.subrange(0, at as int) + src@ + old(dst)@.subrange(at + n, 68));
}

fn copy_out<const N: usize>(src: &[u8; 68], at: usize, out: &mut [u8; N])
    requires
        at + N <= 68,
        old(out)@.len() == N,
    ensures
        final(out)@ == src@.subrange(at as int, at + N),
{
    let mut i: usize = 0;
    while i < N
        invariant
            at + N <= 68,
            i <= N,
            out@.len() == N,
            forall|j: int| 0 <= j < i ==> out@[j] == src@[at + j],
        decreases N - i,
    {
        out[i] = src[at + i];
        i = i + 1;
    }
    assert(out@ =~= src@.subrange(at as int, at + N));
}

impl Handshake {
    /// A handshake for the given torrent and peer id, with the standard
    /// protocol name and zero reserved bytes.
    pub fn new(info_hash: [u8; SHA1_LEN], peer_id: [u8; 20]) -> (r: Self)
        ensures
            r.lenght == 19,
            r.protocol@ == protocol_name(),
            r.reserve@ == Seq::new(8, |i: int| 0u8),
            r.info_hash == info_hash,
            r.peer_id == peer_id,
    {
        let r = Handshake { lenght: 19, protocol: protocol(), reserve: [0u8; 8], info_hash, peer_id };
        assert(r.reserve@ =~= Seq::new(8, |i: int| 0u8));
        r
    }

    /// The 68 bytes that are sent for this handshake.
    pub fn as_bytes(&self) -> (r: [u8; 68])
        ensures
            r@ == handshake_bytes(*self),
    {
        let mut out = [0u8; 68];
        out[0] = self.lenght;
        copy_into(&mut out, 1, self.protocol.as_slice());
        copy_into(&mut out, 20, self.reserve.as_slice());
        copy_into(&mut out, 28, self.info_hash.as_slice());
        copy_into(&mut out, 48, self.peer_id.as_slice());
        assert(out@ =~= handshake_bytes(*self));
        out
    }

    /// The handshake that the 68 bytes of `bytes` carry.
    pub fn from_bytes(bytes: &[u8; 68]) -> (r: Self)
        ensures
            handshake_bytes(r) == bytes@,
            handshake_fields(r) == handshake_of(bytes@),
    {
        let mut protocol = [0u8; 19];
        let mut reserve = [0u8; 8];
        let mut info_hash = [0u8; SHA1_LEN];
        let mut peer_id = [0u8; 20];
        copy_out(bytes, 1, &mut protocol);
        copy_out(bytes, 20, &mut reserve);
        copy_out(bytes, 28, &mut info_hash);
        copy_out(bytes, 48, &mut peer_id);
        let r = Handshake { lenght: bytes[0], protocol, reserve, info_hash, peer_id };
        assert(handshake_bytes(r) =~= bytes@);
        assert(seq![r.lenght] =~= bytes@.subrange(0, 1));
        r
    }
}

/// A handshake read back from its own wire form is the same handshake, and
/// any 68 bytes are the wire form of the handshake read from them.
pub proof fn lemma_handshake_roundtrip(h: Handshake, s: Seq<u8>)
    requires
        s.len() == HANDSHAKE_LEN,
    ensures
        handshake_of(handshake_bytes(h)) == handshake_fields(h),
        ({
            let f = handshake_of(s);
            f.0 + f.1 + f.2 + f.3 + f.4 == s
        }),
{
    let b = handshake_bytes(h);
    assert(b.subrange(0, 1) =~= seq![h.lenght]);
    assert(b.subrange(1, 20) =~= h.protocol@);
    assert(b.subrange(20, 28) =~= h.reserve@);
    assert(b.subrange(28, 48) =~= h.info_hash@);
    assert(b.subrange(48, 68) =~= h.peer_id@);
    let f = handshake_of(s);
    assert(f.0 + f.1 + f.2 + f.3 + f.4 =~= s);
}

// ---------------------------------------------------------------------------
// Block requests and block payloads
// ---------------------------------------------------------------------------

/// A request for `length` bytes of piece `index`, from offset `begin`.
#[derive(Debug, Clone, Copy)]
pub struct Request {
    pub index: u32,
    pub begin: u32,
    pub length: u32,
}

/// The payload of a request message: the three fields, big-endian.
pub open spec fn request_bytes(r: Request) -> Seq<u8> {
    be32_bytes(r.index) + be32_bytes(r.begin) + be32_bytes(r.length)
}

impl Request {
    /// The twelve payload bytes of this request.
    pub fn as_bytes(&self) -> (r: [u8; 12])
        ensures
            r@ == request_bytes(*self),
    {
        let a = u32_to_be(self.index);
        let b = u32_to_be(self.begin);
        let c = u32_to_be(self.length);
        let r = [a[0], a[1], a[2], a[3], b[0], b[1], b[2], b[3], c[0], c[1], c[2], c[3]];
        assert(r@ =~= request_bytes(*self));
        r
    }
}

/// A block of a piece as a peer sends it: the piece index, the offset of
/// the block in the piece, and the block's bytes.
#[derive(Debug, Clone)]
pub struct Piece<'a> {
    pub index: u32,
    pub begin: u32,
    pub piece: &'a [u8],
}

/// The payload of a piece message that carries `data` at `begin` in piece `index`.
pub open spec fn piece_payload(index: u32, begin: u32, data: Seq<u8>) -> Seq<u8> {
    be32_bytes(index) + be32_bytes(begin) + data
}

/// The fields that a piece payload carries, when it holds at least the two
/// numbers: the index, the offset, and all bytes that follow them.
pub open spec fn piece_fields(s: Seq<u8>) -> Option<(int, int, Seq<u8>)> {
    if s.len() < 8 {
        None
    } else {
        Some((be32_at(s, 0), be32_at(s, 4), s.subrange(8, s.len() as int)))
    }
}

impl<'a> Piece<'a> {
    /// Reads the block that a piece message's payload carries.
    pub fn ref_from_payload(data: &'a [u8]) -> (r: Option<Self>)
        ensures
            r is Some <==> piece_fields(data@) is Some,
            r matches Some(p) ==> piece_fields(data@) == Some(
                (p.index as int, p.begin as int, p.piece@),
            ),
    {
        if data.len() < 8 {
            return None;
        }
        let index = u32_from_be(data, 0);
        let begin = u32_from_be(data, 4);
        let piece = &data[8..data.len()];
        Some(Piece { index, begin, piece })
    }
}

/// A block message's payload reads back as the block it was made from.
pub proof fn lemma_piece_payload_roundtrip(index: u32, begin: u32, data: Seq<u8>)
    ensures
        piece_fields(piece_payload(index, begin, data)) == Some(
            (index as int, begin as int, data),
        ),
{
    let s = piece_payload(index, begin, data);
    lemma_be32_roundtrip(index, be32_bytes(begin) + data, Seq::empty());
    assert(Seq::<u8>::empty() + be32_bytes(index) + (be32_bytes(begin) + data) =~= s);
    lemma_be32_roundtrip(begin, data, be32_bytes(index));
    assert(be32_bytes(index) + be32_bytes(begin) + data =~= s);
    assert(s.subrange(8, s.len() as int) =~= data);
}

// ---------------------------------------------------------------------------
// Message tags
// ---------------------------------------------------------------------------

/// Tags of the peer wire messages, in the order of their wire numbers.
#[derive(Debug, Clone, Copy, PartialEq, Eq, Structural)]
pub enum Tag {
    _Choke,
    Unchoke,
    Interested,
    _NotInterested,
    _Have,
    Bitfield,
    Request,
    _Cancel,
    Piece,
}

/// The wire number of a tag.
pub open spec fn tag_code(t: Tag) -> u8 {
    match t {
        Tag::_Choke => 0,
        Tag::Unchoke => 1,
        Tag::Interested => 2,
        Tag::_NotInterested => 3,
        Tag::_Have => 4,
        Tag::Bitfield => 5,
        Tag::Request => 6,
        Tag::_Cancel => 7,
        Tag::Piece => 8,
    }
}

/// The tag with wire number `b`, for `b` up to 8.
pub open spec fn tag_of(b: u8) -> Tag {
    if b == 0 {
        Tag::_Choke
    } else if b == 1 {
        Tag::Unchoke
    } else if b == 2 {
        Tag::Interested
    } else if b == 3 {
        Tag::_NotInterested
    } else if b == 4 {
        Tag::_Have
    } else if b == 5 {
        Tag::Bitfield
    } else if b == 6 {
        Tag::Request
    } else if b == 7 {
        Tag::_Cancel
    } else {
        Tag::Piece
    }
}

/// The largest wire number of a tag.
pub const MAX_TAG: u8 = 8;

/// Errors of the peer wire protocol.
#[derive(Debug, Clone, Copy, PartialEq, Eq, Structural)]
pub enum PeerError {
    /// A byte that is the wire number of no tag.
    InvalidTag(u8),
    /// An incoming frame whose length prefix exceeds the limit.
    FrameTooLarge(u32),
    /// An outgoing message whose tag and payload exceed the limit; it holds
    /// that length.
    MessageTooLarge(usize),
}

impl Tag {
    /// The wire number of this tag.
    pub fn as_u8(&self) -> (r: u8)
        ensures
            r == tag_code(*self),
    {
        match self {
            Tag::_Choke => 0,
            Tag::Unchoke => 1,
            Tag::Interested => 2,
            Tag::_NotInterested => 3,
            Tag::_Have => 4,
            Tag::Bitfield => 5,
            Tag::Request => 6,
            Tag::_Cancel => 7,
            Tag::Piece => 8,
        }
    }

    /// The tag whose wire number is `value`; numbers above 8 are refused.
    pub fn try_from(value: u8) -> (r: Result<Tag, PeerError>)
        ensures
            value <= MAX_TAG ==> r == Ok::<Tag, PeerError>(tag_of(value)),
            value > MAX_TAG ==> r == Err::<Tag, PeerError>(PeerError::InvalidTag(value)),
            r matches Ok(t) ==> tag_code(t) == value,
    {
        if value > MAX_TAG {
            return Err(PeerError::InvalidTag(value));
        }
        let t = if value == 0 {
            Tag::_Choke
        } else if value == 1 {
            Tag::Unchoke
        } else if value == 2 {
            Tag::Interested
        } else if value == 3 {
            Tag::_NotInterested
        } else if value == 4 {
            Tag::_Have
        } else if value == 5 {
            Tag::Bitfield
        } else if value == 6 {
            Tag::Request
        } else if value == 7 {
            Tag::_Cancel
        } else {
            Tag::Piece
        };
        Ok(t)
    }
}

/// Every tag reads back from its wire number, and the wire numbers are
/// exactly 0 to 8.
pub proof fn lemma_tag_roundtrip(t: Tag, b: u8)
    ensures
        tag_of(tag_code(t)) == t,
        tag_code(t) <= MAX_TAG,
        b <= MAX_TAG ==> tag_code(tag_of(b)) == b,
{
}


// ---------------------------------------------------------------------------
// Messages and their frames
// ---------------------------------------------------------------------------

/// A peer wire message: its tag and the bytes that follow the tag.
#[derive(Debug, Clone)]
pub struct PeerMessage {
    pub tag: Tag,
    pub payload: Vec<u8>,
}

/// The largest length that a frame may announce: the tag byte and the payload.
pub const MAX_FRAME_LEN: usize = 65536;

impl PeerMessage {
    /// The largest length that a frame may announce.
    pub const MAX: usize = 65536;
}

/// The outcome of reading a frame at position `at` of `s`: the position up
/// to which bytes are used, and the message if a whole one is there, or
/// the error. Frames of length zero (keep-alives) are skipped and their
/// bytes are used even when what follows them is refused; a frame that is
/// not complete yet, or that is refused, uses no bytes of itself.
pub open spec fn frame_at(s: Seq<u8>, at: int) -> (int, Result<Option<(Tag, Seq<u8>)>, PeerError>)
    decreases s.len() - at,
{
    if at < 0 || s.len() - at < 4 {
        (at, Ok(None))
    } else {
        let len = be32_at(s, at);
        if len == 0 {
            frame_at(s, at + 4)
        } else if s.len() - at < 5 {
            (at, Ok(None))
        } else if len > MAX_FRAME_LEN {
            (at, Err(PeerError::FrameTooLarge(len as u32)))
        } else if s.len() - at < 4 + len {
            (at, Ok(None))
        } else if s[at + 4] > MAX_TAG {
            (at, Err(PeerError::InvalidTag(s[at + 4])))
        } else {
            (at + 4 + len, Ok(Some((tag_of(s[at + 4]), s.subrange(at + 5, at + 4 + len)))))
        }
    }
}

/// The bytes of the frame that carries a message with `tag` and `payload`.
pub open spec fn frame_bytes(tag: Tag, payload: Seq<u8>) -> Seq<u8> {
    be32_bytes((payload.len() + 1) as u32) + seq![tag_code(tag)] + payload
}

/// A decoding outcome, related to its specification.
pub open spec fn decoded_as(
    r: (usize, Result<Option<PeerMessage>, PeerError>),
    spec: (int, Result<Option<(Tag, Seq<u8>)>, PeerError>),
) -> bool {
    &&& r.0 == spec.0
    &&& match (r.1, spec.1) {
        (Ok(None), Ok(None)) => true,
        (Ok(Some(msg)), Ok(Some((t, p)))) => msg.tag == t && msg.payload@ == p,
        (Err(e1), Err(e2)) => e1 == e2,
        _ => false,
    }
}

/// The codec of length-prefixed peer wire frames.
#[derive(Debug, Clone, Copy)]
pub struct MsgFramed;

impl MsgFramed {
    /// Reads one message from the front of `src`. Returns how many bytes of
    /// `src` are used up (skipped keep-alives and the frame read), with the
    /// message, no message when the next frame is not complete yet, or the
    /// error when the next frame is refused.
    pub fn decode(&mut self, src: &[u8]) -> (r: (usize, Result<Option<PeerMessage>, PeerError>))
        ensures
            decoded_as(r, frame_at(src@, 0)),
    {
        Self::decode_at(src, 0)
    }

    fn decode_at(src: &[u8], at: usize) -> (r: (usize, Result<Option<PeerMessage>, PeerError>))
        requires
            at <= src@.len(),
        ensures
            decoded_as(r, frame_at(src@, at as int)),
        decreases src@.len() - at,
    {
        let n = src.len();
        if n - at < 4 {
            return (at, Ok(None));
        }
        let length = u32_from_be(src, at);
        if length == 0 {
            return Self::decode_at(src, at + 4);
        }
        if n - at < 5 {
            return (at, Ok(None));
        }
        if length as usize > MAX_FRAME_LEN {
            return (at, Err(PeerError::FrameTooLarge(length)));
        }
        let length = length as usize;
        if n - at < 4 + length {
            return (at, Ok(None));
        }
        let tag = match Tag::try_from(src[at + 4]) {
            Ok(t) => t,
            Err(e) => return (at, Err(e)),
        };
        let data = if n - at > 5 {
            bytes_to_vec(&src[at + 5..at + 4 + length])
        } else {
            Vec::new()
        };
        proof {
            if n - at <= 5 {
                assert(data@ =~= src@.subrange(at + 5, at + 4 + length));
            }
        }
        (at + 4 + length, Ok(Some(PeerMessage { tag, payload: data })))
    }

    /// Appends the frame of `item` to `dst`: its length (tag and payload)
    /// as four big-endian bytes, the tag's wire number and the payload.
    /// A message longer than the frame limit is refused.
    pub fn encode(&mut self, item: PeerMessage, dst: &mut Vec<u8>) -> (r: Result<(), PeerError>)
        requires
            item.payload@.len() < usize::MAX,
        ensures
            item.payload@.len() + 1 > MAX_FRAME_LEN ==> r == Err::<(), PeerError>(
                PeerError::MessageTooLarge((item.payload@.len() + 1) as usize),
            ) && final(dst)@ == old(dst)@,
            item.payload@.len() + 1 <= MAX_FRAME_LEN ==> r is Ok && final(dst)@ == old(dst)@
                + frame_bytes(item.tag, item.payload@),
    {
        if item.payload.len() + 1 > MAX_FRAME_LEN {
            return Err(PeerError::MessageTooLarge(item.payload.len() + 1));
        }
        let len = 1 + item.payload.len();
        let len_bytes = u32_to_be(len as u32);
        append_bytes(dst, len_bytes.as_slice());
        dst.push(item.tag.as_u8());
        append_bytes(dst, item.payload.as_slice());
        assert(dst@ =~= old(dst)@ + frame_bytes(item.tag, item.payload@));
        Ok(())
    }
}

/// A frame read back from the front of any byte stream gives the message
/// it was made from, and uses exactly its own bytes.
pub proof fn lemma_frame_roundtrip(tag: Tag, payload: Seq<u8>, rest: Seq<u8>)
    requires
        payload.len() + 1 <= MAX_FRAME_LEN,
    ensures
        frame_at(frame_bytes(tag, payload) + rest, 0) == (
            (payload.len() + 5) as int,
            Ok::<Option<(Tag, Seq<u8>)>, PeerError>(Some((tag, payload))),
        ),
{
    let len = (payload.len() + 1) as u32;
    let s = frame_bytes(tag, payload) + rest;
    lemma_be32_roundtrip(len, seq![tag_code(tag)] + payload + rest, Seq::empty());
    assert(Seq::<u8>::empty() + be32_bytes(len) + (seq![tag_code(tag)] + payload + rest) =~= s);
    assert(s[4] == tag_code(tag));
    lemma_tag_roundtrip(tag, 0);
    assert(s.subrange(5, 4 + len) =~= payload);
}

/// A frame read back from any position of a byte stream gives the message
/// it was made from, and uses exactly its own bytes.
pub proof fn lemma_frame_at_position(pre: Seq<u8>, tag: Tag, payload: Seq<u8>, rest: Seq<u8>)
    requires
        payload.len() + 1 <= MAX_FRAME_LEN,
    ensures
        frame_at(pre + frame_bytes(tag, payload) + rest, pre.len() as int) == (
            (pre.len() + payload.len() + 5) as int,
            Ok::<Option<(Tag, Seq<u8>)>, PeerError>(Some((tag, payload))),
        ),
{
    let len = (payload.len() + 1) as u32;
    let p = pre.len() as int;
    let s = pre + frame_bytes(tag, payload) + rest;
    lemma_be32_roundtrip(len, seq![tag_code(tag)] + payload + rest, pre);
    assert(pre + be32_bytes(len) + (seq![tag_code(tag)] + payload + rest) =~= s);
    assert(s[p + 4] == tag_code(tag));
    lemma_tag_roundtrip(tag, 0);
    assert(s.subrange(p + 5, p + 4 + len) =~= payload);
}

/// `k` keep-alive frames: four zero bytes each.
pub open spec fn keep_alives(k: nat) -> Seq<u8> {
    Seq::new(4 * k, |i: int| 0u8)
}

/// Keep-alives in front of a frame are skipped: reading gives the frame's
/// message and uses the keep-alives and the frame.
pub proof fn lemma_keep_alives_skipped(k: nat, tag: Tag, payload: Seq<u8>, rest: Seq<u8>)
    requires
        payload.len() + 1 <= MAX_FRAME_LEN,
    ensures
        frame_at(keep_alives(k) + frame_bytes(tag, payload) + rest, 0) == (
            (4 * k + payload.len() + 5) as int,
            Ok::<Option<(Tag, Seq<u8>)>, PeerError>(Some((tag, payload))),
        ),
{
    lemma_keep_alives_from(k, 0, tag, payload, rest);
}

proof fn lemma_keep_alives_from(k: nat, j: nat, tag: Tag, payload: Seq<u8>, rest: Seq<u8>)
    requires
        payload.len() + 1 <= MAX_FRAME_LEN,
        j <= k,
    ensures
        frame_at(keep_alives(k) + frame_bytes(tag, payload) + rest, (4 * j) as int) == (
            (4 * k + payload.len() + 5) as int,
            Ok::<Option<(Tag, Seq<u8>)>, PeerError>(Some((tag, payload))),
        ),
    decreases k - j,
{
    let s = keep_alives(k) + frame_bytes(tag, payload) + rest;
    if j == k {
        lemma_frame_at_position(keep_alives(k), tag, payload, rest);
    } else {
        let at = (4 * j) as int;
        assert(s[at] == 0 && s[at + 1] == 0 && s[at + 2] == 0 && s[at + 3] == 0);
        assert(be32_at(s, at) == 0);
        lemma_keep_alives_from(k, j + 1, tag, payload, rest);
        assert(4 * (j + 1) == at + 4);
    }
}

} // verus!
