//! The few MessagePack tokens that the archive layout itself is made of: the
//! 32-bit signed integer and the extension header.
use vstd::prelude::*;

verus! {

/// The four bytes of `v`, most significant first.
pub open spec fn be32(v: int) -> Seq<u8> {
    seq![
        (v / 0x100_0000 % 256) as u8,
        (v / 0x1_0000 % 256) as u8,
        (v / 0x100 % 256) as u8,
        (v % 256) as u8,
    ]
}

/// The number whose big-endian bytes are `b0 b1 b2 b3`.
pub open spec fn from_be32(b0: u8, b1: u8, b2: u8, b3: u8) -> int {
    b0 as int * 0x100_0000 + b1 as int * 0x1_0000 + b2 as int * 0x100 + b3 as int
}

/// `v` as an unsigned 32-bit number in two's complement.
pub open spec fn twos(v: i32) -> int {
    if v >= 0 {
        v as int
    } else {
        v as int + 0x1_0000_0000
    }
}

/// The signed number that the unsigned 32-bit number `u` stands for.
pub open spec fn untwos(u: int) -> int {
    if u >= 0x8000_0000 {
        u - 0x1_0000_0000
    } else {
        u
    }
}

/// The five-byte token of a 32-bit signed integer: the marker `0xd2`, then
/// the value big-endian.
pub open spec fn i32_token(v: i32) -> Seq<u8> {
    seq![0xd2u8] + be32(twos(v))
}

/// What a reader of a 32-bit signed integer token finds at the start of `s`.
pub open spec fn i32_at(s: Seq<u8>) -> Option<i32> {
    if s.len() >= 5 && s[0] == 0xd2 {
        Some(untwos(from_be32(s[1], s[2], s[3], s[4])) as i32)
    } else {
        None
    }
}

/// The header of an extension value of `len` payload bytes and type `tag`:
/// the shortest of the eight forms, then the type byte.
pub open spec fn ext_meta(len: u32, tag: i8) -> Seq<u8>
    recommends
        tag >= 0,
{
    let head = if len == 1 {
        seq![0xd4u8]
    } else if len == 2 {
        seq![0xd5u8]
    } else if len == 4 {
        seq![0xd6u8]
    } else if len == 8 {
        seq![0xd7u8]
    } else if len == 16 {
        seq![0xd8u8]
    } else if len <= 255 {
        seq![0xc7u8, len as u8]
    } else if len <= 65535 {
        seq![0xc8u8, (len / 256) as u8, (len % 256) as u8]
    } else {
        seq![0xc9u8] + be32(len as int)
    };
    head.push(tag as u8)
}

/// An extension header as a reader sees it.
pub struct ExtHead {
    /// The extension type.
    pub tag: i8,
    /// Where the payload starts, counted from the marker.
    pub start: usize,
    /// How many bytes the payload has.
    pub len: usize,
}

/// The tag that the type byte `b` stands for.
pub open spec fn tag_of(b: u8) -> i8 {
    if b >= 128 {
        (b - 256) as i8
    } else {
        b as i8
    }
}

/// The extension header at the start of `s`, in any of its eight forms, as
/// (type, payload start, payload length); `None` where `s` starts with
/// anything else or ends inside the header.
pub open spec fn ext_head(s: Seq<u8>) -> Option<(i8, int, int)> {
    if s.len() < 2 {
        None
    } else if s[0] == 0xd4 {
        Some((tag_of(s[1]), 2, 1))
    } else if s[0] == 0xd5 {
        Some((tag_of(s[1]), 2, 2))
    } else if s[0] == 0xd6 {
        Some((tag_of(s[1]), 2, 4))
    } else if s[0] == 0xd7 {
        Some((tag_of(s[1]), 2, 8))
    } else if s[0] == 0xd8 {
        Some((tag_of(s[1]), 2, 16))
    } else if s[0] == 0xc7 && s.len() >= 3 {
        Some((tag_of(s[2]), 3, s[1] as int))
    } else if s[0] == 0xc8 && s.len() >= 4 {
        Some((tag_of(s[3]), 4, s[1] as int * 256 + s[2] as int))
    } else if s[0] == 0xc9 && s.len() >= 6 {
        Some((tag_of(s[5]), 6, from_be32(s[1], s[2], s[3], s[4])))
    } else {
        None
    }
}

/// Appends the token of `val` to `out`.
///
/// Calls `rmp::encode::write_i32`, which writes the marker `0xd2` and then
/// the value's four bytes, most significant first, whatever the value. A
/// `Vec<u8>` takes every write, so the call cannot fail.
#[verifier::external_body]
pub(crate) fn put_i32(out: &mut Vec<u8>, val: i32)
    ensures
        final(out)@ == old(out)@ + i32_token(val),
{
    let _ = rmp::encode::write_i32(out, val);
}

/// Appends the header of an extension value to `out`.
///
/// Calls `rmp::encode::write_ext_meta`, which picks the fixed form for a
/// payload of 1, 2, 4, 8 or 16 bytes, else the shortest form whose length
/// field holds `len`, writes the length big-endian and then the type byte.
/// Negative types are reserved, so they are left out.
#[verifier::external_body]
pub(crate) fn put_ext_meta(out: &mut Vec<u8>, len: u32, tag: i8)
    requires
        tag >= 0,
    ensures
        final(out)@ == old(out)@ + ext_meta(len, tag),
{
    let _ = rmp::encode::write_ext_meta(out, len, tag);
}

/// Reads the token of a 32-bit signed integer from the start of `src`.
///
/// Calls `rmp::decode::read_i32`, which takes one marker byte, accepts only
/// `0xd2`, and then reads four bytes, most significant first; a short input
/// or another marker is an error.
#[verifier::external_body]
pub(crate) fn take_i32(src: &[u8]) -> (r: Option<i32>)
    ensures
        r == i32_at(src@),
{
    let mut rd = src;
    rmp::decode::read_i32(&mut rd).ok()
}

/// Reads an extension header from the start of `src`.
pub fn read_ext_head(src: &[u8]) -> (r: Option<ExtHead>)
    ensures
        match r {
            Some(h) => ext_head(src@) == Some((h.tag, h.start as int, h.len as int)),
            None => ext_head(src@) is None,
        },
{
    if src.len() < 2 {
        return None;
    }
    let m: u8 = src[0];
    if m == 0xd4 {
        Some(ExtHead { tag: tag_from(src[1]), start: 2, len: 1 })
    } else if m == 0xd5 {
        Some(ExtHead { tag: tag_from(src[1]), start: 2, len: 2 })
    } else if m == 0xd6 {
        Some(ExtHead { tag: tag_from(src[1]), start: 2, len: 4 })
    } else if m == 0xd7 {
        Some(ExtHead { tag: tag_from(src[1]), start: 2, len: 8 })
    } else if m == 0xd8 {
        Some(ExtHead { tag: tag_from(src[1]), start: 2, len: 16 })
    } else if m == 0xc7 && src.len() >= 3 {
        let n: usize = src[1] as usize;
        Some(ExtHead { tag: tag_from(src[2]), start: 3, len: n })
    } else if m == 0xc8 && src.len() >= 4 {
        let n: usize = src[1] as usize * 256 + src[2] as usize;
        Some(ExtHead { tag: tag_from(src[3]), start: 4, len: n })
    } else if m == 0xc9 && src.len() >= 6 {
        let n: u64 = src[1] as u64 * 0x100_0000 + src[2] as u64 * 0x1_0000 + src[3] as u64 * 0x100
            + src[4] as u64;
        Some(ExtHead { tag: tag_from(src[5]), start: 6, len: n as usize })
    } else {
        None
    }
}

/// The tag that a type byte stands for.
pub fn tag_from(b: u8) -> (t: i8)
    ensures
        t == tag_of(b),
{
    if b >= 128 {
        let d: i16 = b as i16 - 256;
        d as i8
    } else {
        b as i8
    }
}

/// A reader finds the integer that was written: the token of `v`, followed
/// by anything, reads as `v`.
pub proof fn lemma_i32_token_reads_back(v: i32, rest: Seq<u8>)
    ensures
        i32_token(v).len() == 5,
        i32_at(i32_token(v) + rest) == Some(v),
{
    let u = twos(v);
    let s = i32_token(v) + rest;
    assert(0 <= u < 0x1_0000_0000);
    assert(s[0] == 0xd2u8);
    assert(s[1] == (u / 0x100_0000 % 256) as u8);
    assert(s[2] == (u / 0x1_0000 % 256) as u8);
    assert(s[3] == (u / 0x100 % 256) as u8);
    assert(s[4] == (u % 256) as u8);
    assert(from_be32(s[1], s[2], s[3], s[4]) == u);
}

/// A reader finds the header that was written: the header of a payload of
/// `len` bytes and type `tag`, followed by anything, reads as that type and
/// that length, with the payload right behind the header.
pub proof fn lemma_ext_meta_reads_back(len: u32, tag: i8, rest: Seq<u8>)
    requires
        tag >= 0,
    ensures
        ext_head(ext_meta(len, tag) + rest) == Some(
            (tag, ext_meta(len, tag).len() as int, len as int),
        ),
{
    let h = ext_meta(len, tag);
    let s = h + rest;
    assert(tag_of(tag as u8) == tag);
    if len == 1 || len == 2 || len == 4 || len == 8 || len == 16 {
        assert(s[1] == tag as u8);
    } else if len <= 255 {
        assert(s[0] == 0xc7u8);
        assert(s[1] == len as u8);
        assert(s[2] == tag as u8);
    } else if len <= 65535 {
        assert(s[0] == 0xc8u8);
        assert(s[1] == (len / 256) as u8);
        assert(s[2] == (len % 256) as u8);
        assert(s[3] == tag as u8);
    } else {
        let u = len as int;
        assert(s[0] == 0xc9u8);
        assert(s[1] == (u / 0x100_0000 % 256) as u8);
        assert(s[2] == (u / 0x1_0000 % 256) as u8);
        assert(s[3] == (u / 0x100 % 256) as u8);
        assert(s[4] == (u % 256) as u8);
        assert(s[5] == tag as u8);
        assert(from_be32(s[1], s[2], s[3], s[4]) == u);
    }
}

} // verus!
