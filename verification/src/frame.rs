//! The frames of the wire: a length and so many bytes.
use vstd::prelude::*;

verus! {

/// The largest body that a frame may have.
pub const MAX_FRAME: usize = 67_108_864;

/// The number that four bytes stand for, the most significant first.
pub open spec fn big_endian(b: Seq<u8>) -> int {
    b[0] * 0x1000000 + b[1] * 0x10000 + b[2] * 0x100 + b[3]
}

/// The head of a frame whose body has `len` bytes.
pub fn frame_header(len: u32) -> (r: [u8; 4])
    ensures
        big_endian(r@) == len,
{
    let a: u8 = (len / 0x1000000) as u8;
    let b: u8 = ((len / 0x10000) % 0x100) as u8;
    let c: u8 = ((len / 0x100) % 0x100) as u8;
    let d: u8 = (len % 0x100) as u8;
    let r = [a, b, c, d];
    assert(a * 0x1000000 + b * 0x10000 + c * 0x100 + d == len);
    r
}

/// The length of the body that the head of a frame announces.
pub fn frame_len(head: [u8; 4]) -> (r: u32)
    ensures
        r == big_endian(head@),
{
    head[0] as u32 * 0x1000000 + head[1] as u32 * 0x10000 + head[2] as u32 * 0x100 + head[3] as u32
}

/// The frame around a body: its length in four bytes, then the body.
pub open spec fn is_frame_of(frame: Seq<u8>, body: Seq<u8>) -> bool {
    &&& frame.len() == 4 + body.len()
    &&& big_endian(frame.take(4)) == body.len()
    &&& frame.skip(4) == body
}

/// Why bytes are not a frame.
#[derive(Debug, Clone, Copy, PartialEq, Eq)]
pub enum FrameError {
    /// The frame announces more than a frame may hold: "frame exceeds maximum size".
    TooLarge,
}

/// Frames a body.
pub fn encode_frame(body: &Vec<u8>) -> (r: Vec<u8>)
    requires
        body@.len() <= u32::MAX,
    ensures
        is_frame_of(r@, body@),
{
    let head = frame_header(body.len() as u32);
    let mut r: Vec<u8> = Vec::new();
    r.push(head[0]);
    r.push(head[1]);
    r.push(head[2]);
    r.push(head[3]);
    r.extend_from_slice(body.as_slice());
    proof {
        assert(r@.take(4) =~= head@);
        assert(r@.skip(4) =~= body@);
    }
    r
}

/// How many bytes of body follow a head, where a frame may be that large.
pub fn body_len(head: [u8; 4]) -> (r: Result<usize, FrameError>)
    ensures
        match r {
            Ok(n) => n == big_endian(head@) && n <= MAX_FRAME,
            Err(FrameError::TooLarge) => big_endian(head@) > MAX_FRAME,
        },
        r is Ok <==> big_endian(head@) <= 67_108_864,
{
    let n: usize = frame_len(head) as usize;
    if n > MAX_FRAME {
        return Err(FrameError::TooLarge);
    }
    Ok(n)
}

/// Reading a frame off a stream, four bytes and then as many as they announce, gives
/// back the body that was framed and leaves what follows it.
pub proof fn frames_round_trip(frame: Seq<u8>, body: Seq<u8>, rest: Seq<u8>)
    requires
        is_frame_of(frame, body),
    ensures
        ({
            let bytes = frame + rest;
            let n = big_endian(bytes.take(4));
            &&& bytes.len() >= 4 + n
            &&& n == body.len()
            &&& bytes.subrange(4, 4 + n) == body
            &&& bytes.skip(4 + n) == rest
        }),
{
    let bytes = frame + rest;
    assert(bytes.take(4) =~= frame.take(4));
    let n = big_endian(bytes.take(4));
    assert(bytes.subrange(4, 4 + n) =~= frame.skip(4));
    assert(bytes.skip(4 + n) =~= rest);
}

/// The head of a frame is the length of its body, the byte that counts most first.
pub proof fn the_head_is_in_network_order(frame: Seq<u8>, body: Seq<u8>)
    requires
        is_frame_of(frame, body),
    ensures
        frame[0] == body.len() / 0x1000000,
        frame[1] == body.len() / 0x10000 % 0x100,
        frame[2] == body.len() / 0x100 % 0x100,
        frame[3] == body.len() % 0x100,
{
    let head = frame.take(4);
    assert(head[0] == frame[0] && head[1] == frame[1] && head[2] == frame[2] && head[3]
        == frame[3]);
}

} // verus!
