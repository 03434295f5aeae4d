//! The frame format: one type byte, a big-endian `u16` payload length, then
//! the payload. A chat payload is the sender id (big-endian `u32`) followed by
//! the text; a drop payload is the id alone.

use vstd::prelude::*;

verus! {

/// `std::io::Error`, carried by [`ProtocolError::IO`].
#[verifier::external_type_specification]
#[verifier::external_body]
pub struct ExIoError(std::io::Error);

/// The largest payload a frame can carry: its length must fit the `u16` header.
pub const MAX_PAYLOAD_SIZE: u16 = 65535;

/// A frame of the protocol.
#[derive(Debug, PartialEq, Eq)]
pub enum Frame {
    Chat { id: u32, text: Vec<u8> },
    Dropped { id: u32 },
}

/// What a [`Frame`] holds, as mathematical values.
pub enum FrameView {
    Chat { id: u32, text: Seq<u8> },
    Dropped { id: u32 },
}

impl View for Frame {
    type V = FrameView;

    open spec fn view(&self) -> FrameView {
        match self {
            Frame::Chat { id, text } => FrameView::Chat { id: *id, text: text@ },
            Frame::Dropped { id } => FrameView::Dropped { id: *id },
        }
    }
}

/// Why a frame could not be written or read.
#[derive(Debug)]
pub enum ProtocolError {
    /// The payload does not fit the `u16` length header; holds its length.
    PayloadIsTooLong(usize),
    /// The underlying stream failed.
    IO(std::io::Error),
    /// The stream ended before a whole frame was read.
    Disconnect,
    /// The type byte names no frame type; holds the byte.
    UnknownFrameType(u8),
    /// The payload length does not fit the frame type; holds the length.
    InvalidPayloadLength(usize),
}

/// The kinds of frame, as the type byte names them.
enum FrameType {
    Chat,
    Dropped,
}

impl FrameType {
    fn from_byte(value: u8) -> (r: Result<FrameType, ProtocolError>)
        ensures
            match r {
                Ok(FrameType::Chat) => value == 0,
                Ok(FrameType::Dropped) => value == 1,
                Err(e) => value > 1 && e == ProtocolError::UnknownFrameType(value),
            },
    {
        match value {
            0 => Ok(FrameType::Chat),
            1 => Ok(FrameType::Dropped),
            _ => Err(ProtocolError::UnknownFrameType(value)),
        }
    }
}

/// Big-endian bytes of a `u16`.
pub open spec fn be16(n: u16) -> Seq<u8> {
    seq![(n / 256) as u8, (n % 256) as u8]
}

/// Big-endian bytes of a `u32`.
pub open spec fn be32(n: u32) -> Seq<u8> {
    seq![
        (n / 0x100_0000) as u8,
        ((n / 0x1_0000) % 256) as u8,
        ((n / 256) % 256) as u8,
        (n % 256) as u8,
    ]
}

/// The number whose big-endian bytes are the first two of `b`.
pub open spec fn be16_value(b: Seq<u8>) -> nat {
    (b[0] as nat * 256 + b[1] as nat) as nat
}

/// The `u32` whose big-endian bytes are the first four of `b`.
pub open spec fn be32_value(b: Seq<u8>) -> u32 {
    (b[0] as int * 0x100_0000 + b[1] as int * 0x1_0000 + b[2] as int * 256 + b[3] as int) as u32
}

/// The type byte of a frame.
pub open spec fn frame_type_byte(f: FrameView) -> u8 {
    match f {
        FrameView::Chat { .. } => 0,
        FrameView::Dropped { .. } => 1,
    }
}

/// The payload of a frame.
pub open spec fn payload(f: FrameView) -> Seq<u8> {
    match f {
        FrameView::Chat { id, text } => be32(id) + text,
        FrameView::Dropped { id } => be32(id),
    }
}

/// Whether the payload's length fits the header.
pub open spec fn encodable(f: FrameView) -> bool {
    payload(f).len() <= MAX_PAYLOAD_SIZE
}

/// The bytes of a frame on the wire.
pub open spec fn frame_bytes(f: FrameView) -> Seq<u8> {
    seq![frame_type_byte(f)] + be16(payload(f).len() as u16) + payload(f)
}

/// What reading one frame from the front of `b` gives: the frame and how
/// many bytes it took, or the error.
pub open spec fn spec_decode(b: Seq<u8>) -> Result<(FrameView, nat), ProtocolError> {
    if b.len() < 1 {
        Err(ProtocolError::Disconnect)
    } else if b[0] > 1 {
        Err(ProtocolError::UnknownFrameType(b[0]))
    } else if b.len() < 3 {
        Err(ProtocolError::Disconnect)
    } else {
        let len = be16_value(b.subrange(1, 3));
        if b.len() < 3 + len {
            Err(ProtocolError::Disconnect)
        } else {
            let p = b.subrange(3, 3 + len as int);
            if b[0] == 0 {
                if len < 4 {
                    Err(ProtocolError::InvalidPayloadLength(len as usize))
                } else {
                    Ok((FrameView::Chat { id: be32_value(p), text: p.skip(4) }, (3 + len) as nat))
                }
            } else {
                if len != 4 {
                    Err(ProtocolError::InvalidPayloadLength(len as usize))
                } else {
                    Ok((FrameView::Dropped { id: be32_value(p) }, 7nat))
                }
            }
        }
    }
}

proof fn lemma_be32_value(n: u32)
    ensures
        be32_value(be32(n)) == n,
        be32(n).len() == 4,
{
    let a = n / 0x100_0000;
    let b = (n / 0x1_0000) % 256;
    let c = (n / 256) % 256;
    let d = n % 256;
    assert(a < 256 && b < 256 && c < 256 && d < 256 && a * 0x100_0000 + b * 0x1_0000 + c * 256 + d
        == n) by (nonlinear_arith)
        requires
            a == n / 0x100_0000,
            b == (n / 0x1_0000) % 256,
            c == (n / 256) % 256,
            d == n % 256,
            n < 0x1_0000_0000,
    ;
}

proof fn lemma_be32_bytes(s: Seq<u8>)
    requires
        s.len() == 4,
    ensures
        be32(be32_value(s)) == s,
{
    let a = s[0] as int;
    let b = s[1] as int;
    let c = s[2] as int;
    let d = s[3] as int;
    let v = a * 0x100_0000 + b * 0x1_0000 + c * 256 + d;
    assert(0 <= v < 0x1_0000_0000) by (nonlinear_arith)
        requires
            0 <= a < 256,
            0 <= b < 256,
            0 <= c < 256,
            0 <= d < 256,
            v == a * 0x100_0000 + b * 0x1_0000 + c * 256 + d,
    ;
    assert(v / 0x100_0000 == a && (v / 0x1_0000) % 256 == b && (v / 256) % 256 == c && v % 256
        == d) by (nonlinear_arith)
        requires
            0 <= a < 256,
            0 <= b < 256,
            0 <= c < 256,
            0 <= d < 256,
            v == a * 0x100_0000 + b * 0x1_0000 + c * 256 + d,
    ;
    assert(be32(be32_value(s)) =~= s);
}

proof fn lemma_be16(n: u16)
    ensures
        be16_value(be16(n)) == n,
        be16(n).len() == 2,
{
    assert((n / 256) * 256 + n % 256 == n) by (nonlinear_arith);
    assert(n / 256 < 256) by (nonlinear_arith);
}

/// Reading back what was written: a frame that can be encoded decodes from
/// its own bytes, whatever follows them, and takes exactly those bytes.
pub proof fn lemma_decode_encode(f: FrameView, rest: Seq<u8>)
    requires
        encodable(f),
    ensures
        spec_decode(frame_bytes(f) + rest) == Ok::<(FrameView, nat), ProtocolError>(
            (f, frame_bytes(f).len()),
        ),
{
    let p = payload(f);
    let len = p.len() as u16;
    let b = frame_bytes(f) + rest;
    lemma_be16(len);
    match f {
        FrameView::Chat { id, text } => lemma_be32_value(id),
        FrameView::Dropped { id } => lemma_be32_value(id),
    }
    assert(b.subrange(1, 3) =~= be16(len));
    assert(b.subrange(3, 3 + p.len() as int) =~= p);
    match f {
        FrameView::Chat { id, text } => {
            assert(p.skip(4) =~= text);
            assert(be32_value(p) == be32_value(be32(id)));
        },
        FrameView::Dropped { id } => {
            assert(be32_value(p) == be32_value(be32(id)));
        },
    }
}

/// Writing back what was read: when a frame decodes from the front of `b`,
/// the bytes it took are exactly the frame's encoding.
pub proof fn lemma_encode_decode(b: Seq<u8>)
    ensures
        spec_decode(b) matches Ok((f, n)) ==> encodable(f) && n <= b.len() && b.take(n as int)
            == frame_bytes(f),
{
    if let Ok((f, n)) = spec_decode(b) {
        let len = be16_value(b.subrange(1, 3));
        let p = b.subrange(3, 3 + len as int);
        assert(len <= 65535) by (nonlinear_arith)
            requires
                len == b[1] as nat * 256 + b[2] as nat,
                b[1] < 256,
                b[2] < 256,
        ;
        assert(b[1] as int * 256 + b[2] as int == len);
        assert((len as u16) / 256 == b[1] && (len as u16) % 256 == b[2]) by (nonlinear_arith)
            requires
                len == b[1] as nat * 256 + b[2] as nat,
                b[1] < 256,
                b[2] < 256,
        ;
        lemma_be32_bytes(p.take(4));
        assert(be32_value(p.take(4)) == be32_value(p));
        assert(payload(f) =~= p);
        assert(b.take(n as int) =~= frame_bytes(f));
    }
}

fn push_be32(stream: &mut Vec<u8>, n: u32)
    ensures
        final(stream)@ == old(stream)@ + be32(n),
{
    stream.push((n / 0x100_0000) as u8);
    stream.push(((n / 0x1_0000) % 256) as u8);
    stream.push(((n / 256) % 256) as u8);
    stream.push((n % 256) as u8);
    assert(final(stream)@ =~= old(stream)@ + be32(n));
}

/// Appends the bytes of `frame` to `stream`, or fails, leaving `stream` as it
/// was, when its payload is too long for the header.
pub fn encode(frame: &Frame, stream: &mut Vec<u8>) -> (r: Result<(), ProtocolError>)
    requires
        frame matches Frame::Chat { text, .. } ==> text.len() <= usize::MAX - 4,
    ensures
        r is Ok <==> encodable(frame@),
        r is Ok ==> final(stream)@ == old(stream)@ + frame_bytes(frame@),
        r is Err ==> r == Err::<(), ProtocolError>(
            ProtocolError::PayloadIsTooLong(payload(frame@).len() as usize),
        ) && final(stream)@ == old(stream)@,
{
    let (type_byte, id, payload_len): (u8, u32, usize) = match frame {
        Frame::Chat { id, text } => (0, *id, 4 + text.len()),
        Frame::Dropped { id } => (1, *id, 4),
    };
    proof {
        lemma_be32_value(id);
    }
    if payload_len > MAX_PAYLOAD_SIZE as usize {
        return Err(ProtocolError::PayloadIsTooLong(payload_len));
    }
    let len = payload_len as u16;
    let ghost start = stream@;
    stream.push(type_byte);
    stream.push((len / 256) as u8);
    stream.push((len % 256) as u8);
    push_be32(stream, id);
    assert(stream@ =~= start + seq![type_byte] + be16(len) + be32(id));
    if let Frame::Chat { text, .. } = frame {
        let ghost head = stream@;
        let mut i: usize = 0;
        while i < text.len()
            invariant
                i <= text.len(),
                stream@ == head + text@.take(i as int),
            decreases text.len() - i,
        {
            stream.push(text[i]);
            i = i + 1;
            assert(stream@ =~= head + text@.take(i as int));
        }
        assert(text@.take(text.len() as int) =~= text@);
        assert(stream@ =~= start + frame_bytes(frame@));
    } else {
        assert(stream@ =~= start + frame_bytes(frame@));
    }
    Ok(())
}

/// Copies `b[from..to]`.
fn copy_range(b: &Vec<u8>, from: usize, to: usize) -> (r: Vec<u8>)
    requires
        from <= to <= b.len(),
    ensures
        r@ == b@.subrange(from as int, to as int),
{
    let mut r: Vec<u8> = Vec::new();
    let mut i = from;
    while i < to
        invariant
            from <= i <= to <= b.len(),
            r@ == b@.subrange(from as int, i as int),
        decreases to - i,
    {
        r.push(b[i]);
        i = i + 1;
        assert(r@ =~= b@.subrange(from as int, i as int));
    }
    r
}

/// Reads one frame from the front of `stream` and removes its bytes; on an
/// error `stream` is left as it was. A stream that ends before the frame is
/// whole gives [`ProtocolError::Disconnect`].
pub fn decode(stream: &mut Vec<u8>) -> (r: Result<Frame, ProtocolError>)
    ensures
        match spec_decode(old(stream)@) {
            Ok((f, n)) => r matches Ok(g) && g@ == f && final(stream)@ == old(stream)@.skip(n as int),
            Err(e) => r == Err::<Frame, ProtocolError>(e) && final(stream)@ == old(stream)@,
        },
{
    let n = stream.len();
    if n < 1 {
        return Err(ProtocolError::Disconnect);
    }
    let frame_type = match FrameType::from_byte(stream[0]) {
        Ok(t) => t,
        Err(e) => return Err(e),
    };
    if n < 3 {
        return Err(ProtocolError::Disconnect);
    }
    let len: usize = stream[1] as usize * 256 + stream[2] as usize;
    assert(stream@.subrange(1, 3)[0] == stream@[1] && stream@.subrange(1, 3)[1] == stream@[2]);
    if n - 3 < len {
        return Err(ProtocolError::Disconnect);
    }
    let ghost p = stream@.subrange(3, 3 + len as int);
    let frame = match frame_type {
        FrameType::Chat => {
            if len < 4 {
                return Err(ProtocolError::InvalidPayloadLength(len));
            }
            let id = (stream[3] as u32) * 0x100_0000 + (stream[4] as u32) * 0x1_0000 + (
            stream[5] as u32) * 256 + (stream[6] as u32);
            let text = copy_range(stream, 7, 3 + len);
            assert(text@ =~= p.skip(4));
            Frame::Chat { id, text }
        },
        FrameType::Dropped => {
            if len != 4 {
                return Err(ProtocolError::InvalidPayloadLength(len));
            }
            let id = (stream[3] as u32) * 0x100_0000 + (stream[4] as u32) * 0x1_0000 + (
            stream[5] as u32) * 256 + (stream[6] as u32);
            Frame::Dropped { id }
        },
    };
    let rest = copy_range(stream, 3 + len, n);
    assert(rest@ =~= stream@.skip(3 + len as int));
    *stream = rest;
    Ok(frame)
}

/// How many more bytes `b` needs before the frame at its front is whole:
/// none once it is whole or can be seen to be wrong.
pub open spec fn spec_missing(b: Seq<u8>) -> nat {
    if b.len() < 1 {
        1
    } else if b[0] > 1 {
        0
    } else if b.len() < 3 {
        (3 - b.len()) as nat
    } else {
        let need = 3 + be16_value(b.subrange(1, 3));
        if b.len() < need {
            (need - b.len()) as nat
        } else {
            0
        }
    }
}

/// How many more bytes must be read before [`decode`] can tell the frame at
/// the front of `stream`: none exactly when it would not report the stream's
/// end.
pub fn missing_bytes(stream: &[u8]) -> (r: usize)
    ensures
        r == spec_missing(stream@),
        r == 0 <==> spec_decode(stream@) != Err::<(FrameView, nat), ProtocolError>(
            ProtocolError::Disconnect,
        ),
{
    let n = stream.len();
    if n < 1 {
        return 1;
    }
    if stream[0] > 1 {
        return 0;
    }
    if n < 3 {
        return 3 - n;
    }
    let need: usize = 3 + stream[1] as usize * 256 + stream[2] as usize;
    assert(stream@.subrange(1, 3)[0] == stream@[1] && stream@.subrange(1, 3)[1] == stream@[2]);
    if n < need {
        need - n
    } else {
        0
    }
}

/// The error a failed read of a frame comes to: the stream's end (a read
/// that ran out of bytes) is a disconnect, any other failure is an I/O error.
pub fn read_error(end_of_stream: bool, error: std::io::Error) -> (r: ProtocolError)
    ensures
        end_of_stream ==> r == ProtocolError::Disconnect,
        !end_of_stream ==> r == ProtocolError::IO(error),
{
    if end_of_stream {
        ProtocolError::Disconnect
    } else {
        ProtocolError::IO(error)
    }
}

} // verus!
