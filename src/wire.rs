use vstd::prelude::*;
use crate::endian::{
    be16, be32, copy_range, get_be16, get_be32, lemma_be16_at, lemma_be32_at, push_all,
    push_be16, push_be32, read_be16, read_be32,
};

verus! {

/// Largest frame payload that the decoder accepts.
pub const MAX_FRAME_LEN: u32 = 262144;

/// The tag byte that opens each non-empty message payload.
#[derive(Clone, Copy, Debug, PartialEq, Eq, Structural)]
pub enum MessageTag {
    Choke,
    Unchoke,
    Interested,
    NotInterested,
    Have,
    Bitfield,
    Request,
    Piece,
    Cancel,
    Port,
}

impl MessageTag {
    pub open spec fn spec_byte(self) -> u8 {
        match self {
            MessageTag::Choke => 0,
            MessageTag::Unchoke => 1,
            MessageTag::Interested => 2,
            MessageTag::NotInterested => 3,
            MessageTag::Have => 4,
            MessageTag::Bitfield => 5,
            MessageTag::Request => 6,
            MessageTag::Piece => 7,
            MessageTag::Cancel => 8,
            MessageTag::Port => 9,
        }
    }

    /// The wire value of the tag.
    pub fn byte(self) -> (r: u8)
        ensures
            r == self.spec_byte(),
    {
        match self {
            MessageTag::Choke => 0,
            MessageTag::Unchoke => 1,
            MessageTag::Interested => 2,
            MessageTag::NotInterested => 3,
            MessageTag::Have => 4,
            MessageTag::Bitfield => 5,
            MessageTag::Request => 6,
            MessageTag::Piece => 7,
            MessageTag::Cancel => 8,
            MessageTag::Port => 9,
        }
    }

    /// The tag with wire value `b`, if there is one.
    pub fn from_byte(b: u8) -> (r: Option<MessageTag>)
        ensures
            r is Some <==> b <= 9,
            r matches Some(t) ==> t.spec_byte() == b,
    {
        match b {
            0 => Some(MessageTag::Choke),
            1 => Some(MessageTag::Unchoke),
            2 => Some(MessageTag::Interested),
            3 => Some(MessageTag::NotInterested),
            4 => Some(MessageTag::Have),
            5 => Some(MessageTag::Bitfield),
            6 => Some(MessageTag::Request),
            7 => Some(MessageTag::Piece),
            8 => Some(MessageTag::Cancel),
            9 => Some(MessageTag::Port),
            _ => None,
        }
    }
}

/// A message of the peer wire protocol, after the handshake.
#[derive(Debug)]
pub enum Message {
    KeepAlive,
    Choke,
    Unchoke,
    Interested,
    NotInterested,
    Have(u32),
    Bitfield(Vec<u8>),
    Request { index: u32, begin: u32, length: u32 },
    Piece { index: u32, begin: u32, block: Vec<u8> },
    Cancel { index: u32, begin: u32, length: u32 },
    Port(u16),
}

/// Mathematical value of a [`Message`]: byte vectors become sequences.
pub enum MessageView {
    KeepAlive,
    Choke,
    Unchoke,
    Interested,
    NotInterested,
    Have(u32),
    Bitfield(Seq<u8>),
    Request { index: u32, begin: u32, length: u32 },
    Piece { index: u32, begin: u32, block: Seq<u8> },
    Cancel { index: u32, begin: u32, length: u32 },
    Port(u16),
}

impl View for Message {
    type V = MessageView;

    open spec fn view(&self) -> MessageView {
        match self {
            Message::KeepAlive => MessageView::KeepAlive,
            Message::Choke => MessageView::Choke,
            Message::Unchoke => MessageView::Unchoke,
            Message::Interested => MessageView::Interested,
            Message::NotInterested => MessageView::NotInterested,
            Message::Have(i) => MessageView::Have(*i),
            Message::Bitfield(b) => MessageView::Bitfield(b@),
            Message::Request { index, begin, length } => MessageView::Request {
                index: *index,
                begin: *begin,
                length: *length,
            },
            Message::Piece { index, begin, block } => MessageView::Piece {
                index: *index,
                begin: *begin,
                block: block@,
            },
            Message::Cancel { index, begin, length } => MessageView::Cancel {
                index: *index,
                begin: *begin,
                length: *length,
            },
            Message::Port(p) => MessageView::Port(*p),
        }
    }
}

/// The payload of a message: its tag byte followed by its fields (empty for a keep-alive).
pub open spec fn payload_of(m: MessageView) -> Seq<u8> {
    match m {
        MessageView::KeepAlive => seq![],
        MessageView::Choke => seq![0u8],
        MessageView::Unchoke => seq![1u8],
        MessageView::Interested => seq![2u8],
        MessageView::NotInterested => seq![3u8],
        MessageView::Have(i) => seq![4u8] + be32(i),
        MessageView::Bitfield(b) => seq![5u8] + b,
        MessageView::Request { index, begin, length } => seq![6u8] + be32(index) + be32(begin)
            + be32(length),
        MessageView::Piece { index, begin, block } => seq![7u8] + be32(index) + be32(begin)
            + block,
        MessageView::Cancel { index, begin, length } => seq![8u8] + be32(index) + be32(begin)
            + be32(length),
        MessageView::Port(p) => seq![9u8] + be16(p),
    }
}

/// A message framed for the wire: the payload's length as four big-endian bytes, then the payload.
pub open spec fn frame_of(m: MessageView) -> Seq<u8> {
    be32(payload_of(m).len() as u32) + payload_of(m)
}

/// The message whose payload is exactly `s`, if any.
pub open spec fn parse_payload(s: Seq<u8>) -> Option<MessageView> {
    if s.len() == 0 {
        Some(MessageView::KeepAlive)
    } else {
        let n = s.len();
        let tag = s[0];
        if tag == 0 && n == 1 {
            Some(MessageView::Choke)
        } else if tag == 1 && n == 1 {
            Some(MessageView::Unchoke)
        } else if tag == 2 && n == 1 {
            Some(MessageView::Interested)
        } else if tag == 3 && n == 1 {
            Some(MessageView::NotInterested)
        } else if tag == 4 && n == 5 {
            Some(MessageView::Have(read_be32(s, 1)))
        } else if tag == 5 {
            Some(MessageView::Bitfield(s.subrange(1, n as int)))
        } else if tag == 6 && n == 13 {
            Some(
                MessageView::Request {
                    index: read_be32(s, 1),
                    begin: read_be32(s, 5),
                    length: read_be32(s, 9),
                },
            )
        } else if tag == 7 && n >= 9 {
            Some(
                MessageView::Piece {
                    index: read_be32(s, 1),
                    begin: read_be32(s, 5),
                    block: s.subrange(9, n as int),
                },
            )
        } else if tag == 8 && n == 13 {
            Some(
                MessageView::Cancel {
                    index: read_be32(s, 1),
                    begin: read_be32(s, 5),
                    length: read_be32(s, 9),
                },
            )
        } else if tag == 9 && n == 3 {
            Some(MessageView::Port(read_be16(s, 1)))
        } else {
            None
        }
    }
}

/// Why a frame could not be decoded or encoded.
#[derive(Clone, Copy, Debug, PartialEq, Eq, Structural)]
pub enum FrameError {
    /// The announced payload length is over [`MAX_FRAME_LEN`].
    FrameTooLarge,
    /// The tag byte names no message.
    UnknownMessageTag(u8),
    /// The payload's size does not fit its tag.
    InvalidPayload(u8),
}

/// Every message survives the payload encoding: parsing its payload gives it back.
pub proof fn lemma_payload_round_trip(m: MessageView)
    ensures
        parse_payload(payload_of(m)) == Some(m),
{
    let s = payload_of(m);
    match m {
        MessageView::Have(i) => {
            assert(s.subrange(1, 5) =~= be32(i));
            lemma_be32_at(s, 1, i);
        },
        MessageView::Bitfield(b) => {
            assert(s.subrange(1, s.len() as int) =~= b);
        },
        MessageView::Request { index, begin, length } => {
            assert(s.subrange(1, 5) =~= be32(index));
            assert(s.subrange(5, 9) =~= be32(begin));
            assert(s.subrange(9, 13) =~= be32(length));
            lemma_be32_at(s, 1, index);
            lemma_be32_at(s, 5, begin);
            lemma_be32_at(s, 9, length);
        },
        MessageView::Piece { index, begin, block } => {
            assert(s.subrange(1, 5) =~= be32(index));
            assert(s.subrange(5, 9) =~= be32(begin));
            assert(s.subrange(9, s.len() as int) =~= block);
            lemma_be32_at(s, 1, index);
            lemma_be32_at(s, 5, begin);
        },
        MessageView::Cancel { index, begin, length } => {
            assert(s.subrange(1, 5) =~= be32(index));
            assert(s.subrange(5, 9) =~= be32(begin));
            assert(s.subrange(9, 13) =~= be32(length));
            lemma_be32_at(s, 1, index);
            lemma_be32_at(s, 5, begin);
            lemma_be32_at(s, 9, length);
        },
        MessageView::Port(p) => {
            assert(s.subrange(1, 3) =~= be16(p));
            lemma_be16_at(s, 1, p);
        },
        _ => {},
    }
}

/// A payload that parses is exactly the payload of the message it gives.
pub proof fn lemma_payload_parse_exact(s: Seq<u8>)
    requires
        parse_payload(s) is Some,
    ensures
        payload_of(parse_payload(s)->0) =~= s,
{
    let m = parse_payload(s)->0;
    if s.len() > 0 {
        let t = s[0];
        assert(t <= 9);
        if t == 4 || t == 6 || t == 7 || t == 8 {
            lemma_be32_split(s, 1);
        }
        if t == 6 || t == 7 || t == 8 {
            lemma_be32_split(s, 5);
        }
        if t == 6 || t == 8 {
            lemma_be32_split(s, 9);
        }
        if t == 9 {
            lemma_be16_split(s, 1);
        }
    }
}

proof fn lemma_be32_split(s: Seq<u8>, i: int)
    requires
        0 <= i,
        i + 4 <= s.len(),
    ensures
        be32(read_be32(s, i)) == s.subrange(i, i + 4),
{
    let (a, b, c, d) = (s[i], s[i + 1], s[i + 2], s[i + 3]);
    let x = read_be32(s, i);
    assert((x >> 24u32) as u8 == a && (x >> 16u32) as u8 == b && (x >> 8u32) as u8 == c && x as u8
        == d) by (bit_vector)
        requires
            x == ((a as u32) << 24u32) | ((b as u32) << 16u32) | ((c as u32) << 8u32) | (d as u32),
    ;
    assert(be32(x) =~= s.subrange(i, i + 4));
}

proof fn lemma_be16_split(s: Seq<u8>, i: int)
    requires
        0 <= i,
        i + 2 <= s.len(),
    ensures
        be16(read_be16(s, i)) == s.subrange(i, i + 2),
{
    let (a, b) = (s[i], s[i + 1]);
    let x = read_be16(s, i);
    assert((x >> 8u16) as u8 == a && x as u8 == b) by (bit_vector)
        requires
            x == ((a as u16) << 8u16) | (b as u16),
    ;
    assert(be16(x) =~= s.subrange(i, i + 2));
}


impl Message {
    /// Length of the payload; `None` when it does not fit in 32 bits.
    pub fn payload_len(&self) -> (r: Option<u32>)
        ensures
            r is Some <==> payload_of(self@).len() <= u32::MAX,
            r matches Some(n) ==> n == payload_of(self@).len(),
    {
        match self {
            Message::KeepAlive => Some(0),
            Message::Choke | Message::Unchoke | Message::Interested | Message::NotInterested => Some(
                1,
            ),
            Message::Have(_) => Some(5),
            Message::Bitfield(b) => {
                if b.len() < 0xffff_ffff {
                    Some((b.len() + 1) as u32)
                } else {
                    None
                }
            },
            Message::Request { .. } | Message::Cancel { .. } => Some(13),
            Message::Piece { block, .. } => {
                if block.len() <= 0xffff_fff6 {
                    Some((block.len() + 9) as u32)
                } else {
                    None
                }
            },
            Message::Port(_) => Some(3),
        }
    }

    /// Appends the payload of the message: its tag byte and fields.
    pub fn write_payload(&self, out: &mut Vec<u8>)
        ensures
            final(out)@ == old(out)@ + payload_of(self@),
    {
        match self {
            Message::KeepAlive => {},
            Message::Choke => out.push(MessageTag::Choke.byte()),
            Message::Unchoke => out.push(MessageTag::Unchoke.byte()),
            Message::Interested => out.push(MessageTag::Interested.byte()),
            Message::NotInterested => out.push(MessageTag::NotInterested.byte()),
            Message::Have(i) => {
                out.push(MessageTag::Have.byte());
                push_be32(out, *i);
            },
            Message::Bitfield(b) => {
                out.push(MessageTag::Bitfield.byte());
                push_all(out, b.as_slice());
            },
            Message::Request { index, begin, length } => {
                out.push(MessageTag::Request.byte());
                push_be32(out, *index);
                push_be32(out, *begin);
                push_be32(out, *length);
            },
            Message::Piece { index, begin, block } => {
                out.push(MessageTag::Piece.byte());
                push_be32(out, *index);
                push_be32(out, *begin);
                push_all(out, block.as_slice());
            },
            Message::Cancel { index, begin, length } => {
                out.push(MessageTag::Cancel.byte());
                push_be32(out, *index);
                push_be32(out, *begin);
                push_be32(out, *length);
            },
            Message::Port(p) => {
                out.push(MessageTag::Port.byte());
                push_be16(out, *p);
            },
        }
        assert(final(out)@ =~= old(out)@ + payload_of(self@));
    }

    /// The message framed for the wire: length prefix, then payload.
    pub fn as_bytes(&self) -> (r: Vec<u8>)
        requires
            payload_of(self@).len() <= u32::MAX,
        ensures
            r@ == frame_of(self@),
    {
        let n = match self.payload_len() {
            Some(n) => n,
            None => 0,
        };
        let mut out: Vec<u8> = Vec::new();
        push_be32(&mut out, n);
        self.write_payload(&mut out);
        assert(out@ =~= frame_of(self@));
        out
    }

    /// Parses one message payload (the bytes after the length prefix).
    pub fn from_bytes(bytes: &[u8]) -> (r: Option<Message>)
        ensures
            r is Some <==> parse_payload(bytes@) is Some,
            r matches Some(m) ==> parse_payload(bytes@) == Some(m@),
    {
        let n = bytes.len();
        if n == 0 {
            return Some(Message::KeepAlive);
        }
        let tag = bytes[0];
        if tag == 0 && n == 1 {
            Some(Message::Choke)
        } else if tag == 1 && n == 1 {
            Some(Message::Unchoke)
        } else if tag == 2 && n == 1 {
            Some(Message::Interested)
        } else if tag == 3 && n == 1 {
            Some(Message::NotInterested)
        } else if tag == 4 && n == 5 {
            Some(Message::Have(get_be32(bytes, 1)))
        } else if tag == 5 {
            Some(Message::Bitfield(copy_range(bytes, 1, n)))
        } else if tag == 6 && n == 13 {
            Some(
                Message::Request {
                    index: get_be32(bytes, 1),
                    begin: get_be32(bytes, 5),
                    length: get_be32(bytes, 9),
                },
            )
        } else if tag == 7 && n >= 9 {
            Some(
                Message::Piece {
                    index: get_be32(bytes, 1),
                    begin: get_be32(bytes, 5),
                    block: copy_range(bytes, 9, n),
                },
            )
        } else if tag == 8 && n == 13 {
            Some(
                Message::Cancel {
                    index: get_be32(bytes, 1),
                    begin: get_be32(bytes, 5),
                    length: get_be32(bytes, 9),
                },
            )
        } else if tag == 9 && n == 3 {
            Some(Message::Port(get_be16(bytes, 1)))
        } else {
            None
        }
    }
}

/// The error that `parse_payload` failing on `s` is reported as.
pub open spec fn payload_error(s: Seq<u8>) -> FrameError {
    if s[0] <= 9 {
        FrameError::InvalidPayload(s[0])
    } else {
        FrameError::UnknownMessageTag(s[0])
    }
}

/// The length announced by the prefix of a buffer that holds at least four bytes.
pub open spec fn announced_len(buf: Seq<u8>) -> u32 {
    read_be32(buf, 0)
}

/// Splits length-prefixed messages off a byte stream and frames messages for it.
pub struct MessageFramer;

impl MessageFramer {
    pub fn new() -> (r: MessageFramer) {
        MessageFramer
    }

    /// Takes the first complete frame off the front of `src`.
    ///
    /// `Ok(None)`: no complete frame yet, `src` is left as it was. `Ok(Some(m))`: the frame of
    /// `m` has been removed from the front of `src`. `Err`: the frame at the front is invalid.
    pub fn decode(&mut self, src: &mut Vec<u8>) -> (r: Result<Option<Message>, FrameError>)
        ensures
            old(src)@.len() < 4 ==> r == Ok::<Option<Message>, FrameError>(None) && final(src)@
                == old(src)@,
            old(src)@.len() >= 4 ==> {
                let n = announced_len(old(src)@) as int;
                let p = old(src)@.subrange(4, 4 + n);
                if n > MAX_FRAME_LEN {
                    r == Err::<Option<Message>, FrameError>(FrameError::FrameTooLarge)
                } else if old(src)@.len() < 4 + n {
                    r == Ok::<Option<Message>, FrameError>(None) && final(src)@ == old(src)@
                } else if parse_payload(p) is None {
                    r == Err::<Option<Message>, FrameError>(payload_error(p))
                } else {
                    &&& r matches Ok(Some(m))
                    &&& parse_payload(p) == Some(m@)
                    &&& final(src)@ == old(src)@.subrange(4 + n, old(src)@.len() as int)
                }
            },
    {
        let len = src.len();
        if len < 4 {
            return Ok(None);
        }
        let n = get_be32(src.as_slice(), 0);
        if n > MAX_FRAME_LEN {
            return Err(FrameError::FrameTooLarge);
        }
        let end = 4 + n as usize;
        if len < end {
            return Ok(None);
        }
        let payload = copy_range(src.as_slice(), 4, end);
        match Message::from_bytes(payload.as_slice()) {
            Some(m) => {
                let rest = copy_range(src.as_slice(), end, len);
                *src = rest;
                Ok(Some(m))
            },
            None => {
                if payload[0] <= 9 {
                    Err(FrameError::InvalidPayload(payload[0]))
                } else {
                    Err(FrameError::UnknownMessageTag(payload[0]))
                }
            },
        }
    }

    /// Appends the frame of `item` to `dst`.
    pub fn encode(&mut self, item: Message, dst: &mut Vec<u8>) -> (r: Result<(), FrameError>)
        ensures
            r is Ok <==> payload_of(item@).len() <= MAX_FRAME_LEN,
            r is Ok ==> final(dst)@ == old(dst)@ + frame_of(item@),
            r is Err ==> r == Err::<(), FrameError>(FrameError::FrameTooLarge) && final(dst)@
                == old(dst)@,
    {
        match item.payload_len() {
            Some(n) => {
                if n > MAX_FRAME_LEN {
                    return Err(FrameError::FrameTooLarge);
                }
                push_be32(dst, n);
                item.write_payload(dst);
                assert(dst@ =~= old(dst)@ + frame_of(item@));
                Ok(())
            },
            None => Err(FrameError::FrameTooLarge),
        }
    }
}

/// Decoding undoes encoding: the frame of any message that fits under [`MAX_FRAME_LEN`], followed by
/// any bytes, announces the message's payload, which parses back to the message, and leaves the
/// following bytes in place.
pub proof fn lemma_frame_round_trip(m: MessageView, rest: Seq<u8>)
    requires
        payload_of(m).len() <= MAX_FRAME_LEN,
    ensures
        ({
            let s = frame_of(m) + rest;
            let n = announced_len(s) as int;
            &&& s.len() >= 4
            &&& n == payload_of(m).len()
            &&& s.len() >= 4 + n
            &&& parse_payload(s.subrange(4, 4 + n)) == Some(m)
            &&& s.subrange(4 + n, s.len() as int) == rest
        }),
{
    let s = frame_of(m) + rest;
    let p = payload_of(m);
    let n = p.len() as int;
    assert(s.subrange(0, 4) =~= be32(n as u32));
    lemma_be32_at(s, 0, n as u32);
    assert(s.subrange(4, 4 + n) =~= p);
    assert(s.subrange(4 + n, s.len() as int) =~= rest);
    lemma_payload_round_trip(m);
}

} // verus!
