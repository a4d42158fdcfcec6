use vstd::prelude::*;
use crate::message::{Connect, ConnectAck, Control, Message, Payload};

verus! {

/// The protocol version that both sides write first.
pub const VERSION: u32 = 1;

/// The four bytes of `n`, most significant first.
pub open spec fn be_bytes(n: u32) -> Seq<u8> {
    seq![(n >> 24u32) as u8, (n >> 16u32) as u8, (n >> 8u32) as u8, n as u8]
}

/// The number that four bytes stand for, most significant first.
pub open spec fn be_value(b: Seq<u8>) -> u32 {
    ((b[0] as u32) << 24u32) | ((b[1] as u32) << 16u32) | ((b[2] as u32) << 8u32) | (b[3] as u32)
}

/// A whole frame: the payload's length, then the payload.
pub open spec fn frame_of(payload: Seq<u8>) -> Seq<u8> {
    be_bytes(payload.len() as u32) + payload
}

/// What the front of a receive buffer holds.
#[derive(Debug, PartialEq, Eq)]
pub enum FrameRead {
    /// A length of zero: the peer closes in order.
    Closed,
    /// Not yet a whole frame.
    Incomplete,
    /// One frame's payload and the number of bytes it took.
    Frame(Vec<u8>, usize),
}

/// Failures of the handshake and of reading frames.
#[derive(Clone, Copy, Debug, PartialEq, Eq, Structural)]
pub enum SessionError {
    /// The peer speaks another protocol version.
    VersionMismatch(u32),
    /// A frame that does not hold the message the protocol expects here.
    MalformedFrame,
    /// A resume names an identity that the broker does not hold.
    UnknownConnection(u32),
}

/// The big-endian bytes of `n`.
pub fn encode_u32(n: u32) -> (r: Vec<u8>)
    ensures
        r@ == be_bytes(n),
{
    let mut r: Vec<u8> = Vec::new();
    r.push((n >> 24u32) as u8);
    r.push((n >> 16u32) as u8);
    r.push((n >> 8u32) as u8);
    r.push(n as u8);
    assert(r@ =~= be_bytes(n));
    r
}

/// The number in the first four bytes of `b`, most significant first.
pub fn decode_u32(b: &[u8]) -> (r: u32)
    requires
        b@.len() >= 4,
    ensures
        r == be_value(b@),
{
    ((b[0] as u32) << 24u32) | ((b[1] as u32) << 16u32) | ((b[2] as u32) << 8u32) | (b[3] as u32)
}

/// Reading back the four bytes of a number gives the number.
pub proof fn lemma_be_round_trip(n: u32)
    ensures
        be_value(be_bytes(n)) == n,
{
    let b = be_bytes(n);
    let b0 = (n >> 24u32) as u8;
    let b1 = (n >> 16u32) as u8;
    let b2 = (n >> 8u32) as u8;
    let b3 = n as u8;
    assert(((b0 as u32) << 24u32) | ((b1 as u32) << 16u32) | ((b2 as u32) << 8u32) | (b3 as u32)
        == n) by (bit_vector)
        requires
            b0 == (n >> 24u32) as u8,
            b1 == (n >> 16u32) as u8,
            b2 == (n >> 8u32) as u8,
            b3 == n as u8,
    ;
}

/// Frames `payload`: its length as four big-endian bytes, then the payload.
pub fn encode_frame(payload: &[u8]) -> (r: Vec<u8>)
    requires
        payload@.len() <= u32::MAX,
    ensures
        r@ == frame_of(payload@),
{
    let mut r = encode_u32(payload.len() as u32);
    let mut i: usize = 0;
    while i < payload.len()
        invariant
            0 <= i <= payload@.len(),
            r@ == be_bytes(payload@.len() as u32) + payload@.subrange(0, i as int),
        decreases payload@.len() - i,
    {
        r.push(payload[i]);
        assert(payload@.subrange(0, i + 1) =~= payload@.subrange(0, i as int).push(payload@[i as int]));
        i = i + 1;
    }
    assert(payload@.subrange(0, payload@.len() as int) =~= payload@);
    r
}

/// Reads the frame at the front of `buf`.
pub fn decode_frame(buf: &[u8]) -> (r: FrameRead)
    ensures
        buf@.len() < 4 ==> r == FrameRead::Incomplete,
        buf@.len() >= 4 && be_value(buf@) == 0 ==> r == FrameRead::Closed,
        buf@.len() >= 4 && be_value(buf@) > 0 && buf@.len() < 4 + be_value(buf@)
            ==> r == FrameRead::Incomplete,
        buf@.len() >= 4 && be_value(buf@) > 0 && buf@.len() >= 4 + be_value(buf@) ==> (
        match r {
            FrameRead::Frame(p, n) => n == 4 + be_value(buf@) && p@ == buf@.subrange(4, n as int),
            _ => false,
        }),
{
    if buf.len() < 4 {
        return FrameRead::Incomplete;
    }
    let n = decode_u32(buf);
    if n == 0 {
        return FrameRead::Closed;
    }
    let len = n as usize;
    if buf.len() - 4 < len {
        return FrameRead::Incomplete;
    }
    let mut p: Vec<u8> = Vec::new();
    let mut i: usize = 0;
    while i < len
        invariant
            0 <= i <= len,
            len == n,
            4 + len <= buf@.len(),
            buf@.len() == buf.len(),
            p@ == buf@.subrange(4, 4 + i as int),
        decreases len - i,
    {
        p.push(buf[4 + i]);
        assert(buf@.subrange(4, 4 + i + 1) =~= buf@.subrange(4, 4 + i as int).push(buf@[4 + i as int]));
        i = i + 1;
    }
    FrameRead::Frame(p, 4 + len)
}

/// Accepts the peer's version only when it is ours.
pub fn check_version(peer: u32) -> (r: Result<(), SessionError>)
    ensures
        peer == VERSION <==> r is Ok,
        peer != VERSION ==> r == Err::<(), SessionError>(SessionError::VersionMismatch(peer)),
{
    if peer == VERSION {
        Ok(())
    } else {
        Err(SessionError::VersionMismatch(peer))
    }
}

/// The identity request that must open a broker session.
pub fn expect_connect(msg: &Message) -> (r: Result<Connect, SessionError>)
    ensures
        match msg.payload {
            Payload::Control(Control::Connect(c)) => r == Ok::<Connect, SessionError>(c),
            _ => r == Err::<Connect, SessionError>(SessionError::MalformedFrame),
        },
{
    match &msg.payload {
        Payload::Control(Control::Connect(c)) => Ok(*c),
        _ => Err(SessionError::MalformedFrame),
    }
}

/// The identity that the broker's acknowledgement binds.
pub fn expect_ack(msg: &Message) -> (r: Result<u32, SessionError>)
    ensures
        match msg.payload {
            Payload::Control(Control::ConnectAck(ConnectAck(id))) => r == Ok::<u32, SessionError>(id),
            _ => r == Err::<u32, SessionError>(SessionError::MalformedFrame),
        },
{
    match &msg.payload {
        Payload::Control(Control::ConnectAck(ack)) => Ok(ack.0),
        _ => Err(SessionError::MalformedFrame),
    }
}

} // verus!
