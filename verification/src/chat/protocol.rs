//! The chat's packets and their framing on the wire: a four-byte
//! big-endian length, then the packet's JSON.

use vstd::prelude::*;

verus! {

/// A chat packet.
#[derive(Debug, Clone)]
pub enum Packet {
    Join { username: String },
    Message { username: String, content: String },
    Leave { username: String },
}

/// The big-endian bytes of `n`.
pub open spec fn be_bytes(n: u32) -> Seq<u8> {
    seq![
        (n / 0x100_0000) as u8,
        ((n / 0x1_0000) % 0x100) as u8,
        ((n / 0x100) % 0x100) as u8,
        (n % 0x100) as u8,
    ]
}

/// The number whose big-endian bytes are `b`.
pub open spec fn be_value(b: [u8; 4]) -> int {
    b[0] * 0x100_0000 + b[1] * 0x1_0000 + b[2] * 0x100 + b[3]
}

/// The length header for a body of `len` bytes: the length cut to 32 bits
/// (`len as u32`), big-endian.
pub fn length_header(len: usize) -> (h: [u8; 4])
    ensures
        h@ == be_bytes(len as u32),
{
    let n = len as u32;
    [(n / 0x100_0000) as u8, ((n / 0x1_0000) % 0x100) as u8, ((n / 0x100) % 0x100) as u8, (n % 0x100) as u8]
}

/// The body length that a length header announces.
pub fn body_length(h: [u8; 4]) -> (n: usize)
    ensures
        n == be_value(h),
{
    proof {
        assert(be_value(h) <= 0xffff_ffff);
    }
    let v: u64 = (h[0] as u64) * 0x100_0000 + (h[1] as u64) * 0x1_0000 + (h[2] as u64) * 0x100 + (h[3] as u64);
    v as usize
}

/// A packet's JSON framed for the wire: the length header, then the body.
pub fn frame(body: &Vec<u8>) -> (bytes: Vec<u8>)
    ensures
        bytes@ == be_bytes(body@.len() as u32) + body@,
{
    let header = length_header(body.len());
    let mut bytes: Vec<u8> = Vec::new();
    let mut i: usize = 0;
    while i < 4
        invariant
            i <= 4,
            bytes@ == header@.subrange(0, i as int),
        decreases 4 - i,
    {
        bytes.push(header[i]);
        assert(bytes@ =~= header@.subrange(0, i + 1));
        i = i + 1;
    }
    let n = body.len();
    let mut j: usize = 0;
    while j < n
        invariant
            n == body@.len(),
            j <= n,
            bytes@ == header@ + body@.subrange(0, j as int),
        decreases n - j,
    {
        bytes.push(body[j]);
        assert(bytes@ =~= header@ + body@.subrange(0, j + 1));
        j = j + 1;
    }
    assert(body@.subrange(0, n as int) =~= body@);
    assert(header@.subrange(0, 4) =~= header@);
    bytes
}

/// A length header reads back as the length it was written for, whenever
/// the length fits in 32 bits.
pub proof fn lemma_header_round_trip(len: u32, h: [u8; 4])
    requires
        h@ == be_bytes(len),
    ensures
        be_value(h) == len,
{
    assert(h[0] == h@[0] && h[1] == h@[1] && h[2] == h@[2] && h[3] == h@[3]);
    let n = len as int;
    assert(n == (n / 0x100_0000) * 0x100_0000 + ((n / 0x1_0000) % 0x100) * 0x1_0000 + ((n / 0x100) % 0x100) * 0x100 + n % 0x100)
        by (nonlinear_arith)
        requires
            0 <= n <= 0xffff_ffff,
    ;
}


/// The length header is big-endian: its four bytes, most significant
/// first, are the base-256 digits of the length, and a header reads back
/// as the number those digits make.
pub proof fn lemma_header_is_big_endian(len: u32, h: [u8; 4], any: [u8; 4])
    requires
        h@ == be_bytes(len),
    ensures
        len == h[0] * 16777216 + h[1] * 65536 + h[2] * 256 + h[3],
        be_value(any) == any[0] * 16777216 + any[1] * 65536 + any[2] * 256 + any[3],
{
    lemma_header_round_trip(len, h);
}

} // verus!
