//! The header table on disk: one MessagePack map from entry name to the
//! pair `[offset, length]`, written in front of the body without a length of
//! its own. Where the map ends, the body starts.
use crate::archive::{names_distinct, Archive, HeaderEntry, Named, Ranged, Record};
use crate::error::ArchiveError;
use crate::token::{be32, from_be32};
use vstd::prelude::*;
use vstd::slice::{slice_subrange, slice_to_vec};
use vstd::string::StringSliceAdditionalSpecFns;
use vstd::utf8::{
    decode_utf8, encode_utf8, encode_utf8_decode_utf8, encode_utf8_valid_utf8, valid_utf8,
};

verus! {

/// The two bytes of `v`, most significant first.
pub open spec fn be16(v: int) -> Seq<u8> {
    seq![(v / 256 % 256) as u8, (v % 256) as u8]
}

/// The token of a container length: one byte up to 15, else the 16-bit or
/// the 32-bit form of the family.
pub open spec fn len_token(n: u32, fix: u8, m16: u8, m32: u8) -> Seq<u8> {
    if n < 16 {
        seq![(fix + n) as u8]
    } else if n < 65536 {
        seq![m16] + be16(n as int)
    } else {
        seq![m32] + be32(n as int)
    }
}

/// The token that opens a map of `n` pairs.
pub open spec fn map_len_token(n: u32) -> Seq<u8> {
    len_token(n, 0x80, 0xde, 0xdf)
}

/// The token that opens an array of `n` items.
pub open spec fn array_len_token(n: u32) -> Seq<u8> {
    len_token(n, 0x90, 0xdc, 0xdd)
}

/// The token of an unsigned integer, in its shortest form.
pub open spec fn uint_token(v: u32) -> Seq<u8> {
    if v < 128 {
        seq![v as u8]
    } else if v < 256 {
        seq![0xccu8, v as u8]
    } else if v < 65536 {
        seq![0xcdu8] + be16(v as int)
    } else {
        seq![0xceu8] + be32(v as int)
    }
}

/// The token of a string whose UTF-8 form is `bytes`: the shortest length
/// form, then the bytes.
pub open spec fn str_token(bytes: Seq<u8>) -> Seq<u8>
    recommends
        bytes.len() <= u32::MAX,
{
    let n = bytes.len();
    let head = if n < 32 {
        seq![(0xa0 + n) as u8]
    } else if n < 256 {
        seq![0xd9u8, n as u8]
    } else if n < 65536 {
        seq![0xdau8] + be16(n as int)
    } else {
        seq![0xdbu8] + be32(n as int)
    };
    head + bytes
}

/// The encoding of one line: the name, then the pair.
pub open spec fn record_bytes(r: Record) -> Seq<u8> {
    str_token(encode_utf8(r.name@)) + array_len_token(2) + uint_token(r.entry.offset) + uint_token(
        r.entry.length,
    )
}

/// The encodings of the lines, one after the other.
pub open spec fn records_bytes(t: Seq<Record>) -> Seq<u8>
    decreases t.len(),
{
    if t.len() == 0 {
        Seq::<u8>::empty()
    } else {
        records_bytes(t.drop_last()) + record_bytes(t.last())
    }
}

/// The encoding of the table: the map length, then the lines in table order.
pub open spec fn table_bytes(t: Seq<Record>) -> Seq<u8> {
    map_len_token(t.len() as u32) + records_bytes(t)
}

/// There is a 32-bit number of them, and every name has a 32-bit number of
/// bytes.
pub open spec fn encodable<T: Named>(t: Seq<T>) -> bool {
    &&& t.len() <= u32::MAX
    &&& forall|i: int|
        0 <= i < t.len() ==> encode_utf8((#[trigger] t[i]).label()).len() <= u32::MAX
}

/// Appends the token that opens a map of `n` pairs.
///
/// Calls `rmp::encode::write_map_len`, which writes `0x80 + n` up to 15,
/// else `0xde` and two bytes up to 65535, else `0xdf` and four bytes.
#[verifier::external_body]
pub(crate) fn put_map_len(out: &mut Vec<u8>, n: u32)
    ensures
        final(out)@ == old(out)@ + map_len_token(n),
{
    let _ = rmp::encode::write_map_len(out, n);
}

/// Appends the token that opens an array of `n` items.
///
/// Calls `rmp::encode::write_array_len`, which writes `0x90 + n` up to 15,
/// else `0xdc` and two bytes up to 65535, else `0xdd` and four bytes.
#[verifier::external_body]
pub(crate) fn put_array_len(out: &mut Vec<u8>, n: u32)
    ensures
        final(out)@ == old(out)@ + array_len_token(n),
{
    let _ = rmp::encode::write_array_len(out, n);
}

/// Appends the token of an unsigned integer.
///
/// Calls `rmp::encode::write_uint`, which writes the value itself below
/// 128, else the shortest of the forms `0xcc`, `0xcd` and `0xce` with one,
/// two and four bytes.
#[verifier::external_body]
pub(crate) fn put_uint(out: &mut Vec<u8>, v: u32)
    ensures
        final(out)@ == old(out)@ + uint_token(v),
{
    let _ = rmp::encode::write_uint(out, u64::from(v));
}

/// Appends the token of a string.
///
/// Calls `rmp::encode::write_str`, which writes the length of the string's
/// UTF-8 form (`0xa0 + n` below 32, else `0xd9`, `0xda` or `0xdb` with one,
/// two or four bytes) and then that form. It cuts the length to 32 bits, so
/// longer strings are left out.
#[verifier::external_body]
pub(crate) fn put_str(out: &mut Vec<u8>, s: &str)
    requires
        s.spec_bytes().len() <= u32::MAX,
    ensures
        final(out)@ == old(out)@ + str_token(s.spec_bytes()),
{
    let _ = rmp::encode::write_str(out, s);
}

/// Makes a string of its UTF-8 form.
///
/// Calls `String::from_utf8`, which hands back the string that the bytes
/// spell, or an error where they are not UTF-8.
#[verifier::external_body]
pub(crate) fn string_of(bytes: Vec<u8>) -> (r: Option<String>)
    ensures
        match r {
            Some(s) => valid_utf8(bytes@) && s@ == decode_utf8(bytes@),
            None => !valid_utf8(bytes@),
        },
{
    String::from_utf8(bytes).ok()
}

/// Encodes the header table.
///
/// Fails with `TooLarge` exactly where the table is not encodable.
pub fn encode_table(table: &Vec<Record>) -> (r: Result<Vec<u8>, ArchiveError>)
    ensures
        r is Ok <==> encodable(table@),
        match r {
            Ok(out) => out@ == table_bytes(table@),
            Err(e) => e == ArchiveError::TooLarge,
        },
{
    if table.len() > u32::MAX as usize {
        return Err(ArchiveError::TooLarge);
    }
    let mut out: Vec<u8> = Vec::new();
    put_map_len(&mut out, table.len() as u32);
    let mut i: usize = 0;
    while i < table.len()
        invariant
            i <= table@.len() <= u32::MAX,
            out@ == map_len_token(table@.len() as u32) + records_bytes(table@.take(i as int)),
            forall|k: int| 0 <= k < i ==> encode_utf8((#[trigger] table@[k]).name@).len() <= u32::MAX,
        decreases table@.len() - i,
    {
        let name: &str = table[i].name.as_str();
        if name.as_bytes().len() > u32::MAX as usize {
            return Err(ArchiveError::TooLarge);
        }
        let ghost before = out@;
        put_str(&mut out, name);
        put_array_len(&mut out, 2);
        put_uint(&mut out, table[i].entry.offset);
        put_uint(&mut out, table[i].entry.length);
        proof {
            let next = table@.take(i + 1);
            assert(next.drop_last() == table@.take(i as int));
            assert(next.last() == table@[i as int]);
            assert(out@ == before + record_bytes(table@[i as int]));
        }
        i += 1;
    }
    assert(table@.take(i as int) == table@);
    Ok(out)
}

/// The 16-bit number whose bytes stand at `p`, most significant first.
pub open spec fn be16_at(s: Seq<u8>, p: int) -> int {
    s[p] as int * 256 + s[p + 1] as int
}

/// The 32-bit number whose bytes stand at `p`, most significant first.
pub open spec fn be32_at(s: Seq<u8>, p: int) -> int {
    from_be32(s[p], s[p + 1], s[p + 2], s[p + 3])
}

/// The container length that a reader finds at `p`, in any of the three
/// forms of the family, and where the token ends.
pub open spec fn len_at(s: Seq<u8>, p: int, fix: u8, m16: u8, m32: u8) -> Option<(int, int)> {
    if p < 0 || p >= s.len() {
        None
    } else if fix <= s[p] < fix + 16 {
        Some((s[p] - fix, p + 1))
    } else if s[p] == m16 && p + 3 <= s.len() {
        Some((be16_at(s, p + 1), p + 3))
    } else if s[p] == m32 && p + 5 <= s.len() {
        Some((be32_at(s, p + 1), p + 5))
    } else {
        None
    }
}

/// The string length that a reader finds at `p`, in any of the four forms,
/// and where the token ends.
pub open spec fn str_len_at(s: Seq<u8>, p: int) -> Option<(int, int)> {
    if p < 0 || p >= s.len() {
        None
    } else if 0xa0 <= s[p] < 0xc0 {
        Some((s[p] - 0xa0, p + 1))
    } else if s[p] == 0xd9 && p + 2 <= s.len() {
        Some((s[p + 1] as int, p + 2))
    } else if s[p] == 0xda && p + 3 <= s.len() {
        Some((be16_at(s, p + 1), p + 3))
    } else if s[p] == 0xdb && p + 5 <= s.len() {
        Some((be32_at(s, p + 1), p + 5))
    } else {
        None
    }
}

/// The four bytes from `p` on are zero.
pub open spec fn zeros_at(s: Seq<u8>, p: int) -> bool {
    s[p] == 0 && s[p + 1] == 0 && s[p + 2] == 0 && s[p + 3] == 0
}

/// The unsigned integer of at most 32 bits that a reader finds at `p`, and
/// where the token ends. Every integer form is taken, unsigned or signed
/// and of any width, as long as the number is not negative and fits 32
/// bits.
pub open spec fn uint_at(s: Seq<u8>, p: int) -> Option<(int, int)> {
    if p < 0 || p >= s.len() {
        None
    } else if s[p] < 128 {
        Some((s[p] as int, p + 1))
    } else if s[p] == 0xcc && p + 2 <= s.len() {
        Some((s[p + 1] as int, p + 2))
    } else if s[p] == 0xcd && p + 3 <= s.len() {
        Some((be16_at(s, p + 1), p + 3))
    } else if s[p] == 0xce && p + 5 <= s.len() {
        Some((be32_at(s, p + 1), p + 5))
    } else if (s[p] == 0xcf || s[p] == 0xd3) && p + 9 <= s.len() && zeros_at(s, p + 1) {
        Some((be32_at(s, p + 5), p + 9))
    } else if s[p] == 0xd0 && p + 2 <= s.len() && s[p + 1] < 128 {
        Some((s[p + 1] as int, p + 2))
    } else if s[p] == 0xd1 && p + 3 <= s.len() && s[p + 1] < 128 {
        Some((be16_at(s, p + 1), p + 3))
    } else if s[p] == 0xd2 && p + 5 <= s.len() && s[p + 1] < 128 {
        Some((be32_at(s, p + 1), p + 5))
    } else {
        None
    }
}

/// A line of the table as the contracts see it: the name and the range.
pub type Line = (Seq<char>, HeaderEntry);

impl Named for (Seq<char>, HeaderEntry) {
    open spec fn label(&self) -> Seq<char> {
        self.0
    }
}

impl Ranged for (Seq<char>, HeaderEntry) {
    open spec fn range(&self) -> HeaderEntry {
        self.1
    }
}

/// The two unsigned integers that a reader finds one after the other at
/// `p`, and where the second ends.
pub open spec fn two_uints_at(s: Seq<u8>, p: int) -> Option<(int, int, int)> {
    match uint_at(s, p) {
        None => None,
        Some((first, q)) => match uint_at(s, q) {
            None => None,
            Some((second, r)) => Some((first, second, r)),
        },
    }
}

/// The key `offset` as a string token.
pub open spec fn offset_key() -> Seq<u8> {
    seq![0xa6u8, 0x6f, 0x66, 0x66, 0x73, 0x65, 0x74]
}

/// The key `length` as a string token.
pub open spec fn length_key() -> Seq<u8> {
    seq![0xa6u8, 0x6c, 0x65, 0x6e, 0x67, 0x74, 0x68]
}

/// The seven bytes of `key` stand at `p`.
pub open spec fn key_at(s: Seq<u8>, p: int, key: Seq<u8>) -> bool {
    0 <= p && p + 7 <= s.len() && s.subrange(p, p + 7) == key
}

/// The range that a reader finds at `p` in its named form, a map of the two
/// keys `offset` and `length` in either order, and where it ends.
pub open spec fn named_pair_at(s: Seq<u8>, p: int) -> Option<(HeaderEntry, int)> {
    match len_at(s, p, 0x80, 0xde, 0xdf) {
        None => None,
        Some((k, q)) => if k != 2 {
            None
        } else if key_at(s, q, offset_key()) {
            match uint_at(s, q + 7) {
                None => None,
                Some((offset, r)) => if key_at(s, r, length_key()) {
                    match uint_at(s, r + 7) {
                        None => None,
                        Some((length, t)) => Some(
                            (HeaderEntry { offset: offset as u32, length: length as u32 }, t),
                        ),
                    }
                } else {
                    None
                },
            }
        } else if key_at(s, q, length_key()) {
            match uint_at(s, q + 7) {
                None => None,
                Some((length, r)) => if key_at(s, r, offset_key()) {
                    match uint_at(s, r + 7) {
                        None => None,
                        Some((offset, t)) => Some(
                            (HeaderEntry { offset: offset as u32, length: length as u32 }, t),
                        ),
                    }
                } else {
                    None
                },
            }
        } else {
            None
        },
    }
}

/// The range that a reader finds at `p`, and where it ends: the pair
/// `[offset, length]`, or the named form.
pub open spec fn pair_at(s: Seq<u8>, p: int) -> Option<(HeaderEntry, int)> {
    match len_at(s, p, 0x90, 0xdc, 0xdd) {
        None => named_pair_at(s, p),
        Some((k, q)) => if k != 2 {
            None
        } else {
            match two_uints_at(s, q) {
                None => None,
                Some((offset, length, t)) => Some(
                    (HeaderEntry { offset: offset as u32, length: length as u32 }, t),
                ),
            }
        },
    }
}

/// The line that a reader finds at `p`: a string that is UTF-8, then the
/// pair; and where the line ends.
pub open spec fn record_at(s: Seq<u8>, p: int) -> Option<(Line, int)> {
    match str_len_at(s, p) {
        None => None,
        Some((n, q)) => if q + n > s.len() || !valid_utf8(s.subrange(q, q + n)) {
            None
        } else {
            match pair_at(s, q + n) {
                None => None,
                Some((e, r)) => Some(((decode_utf8(s.subrange(q, q + n)), e), r)),
            }
        },
    }
}

/// The `n` lines that a reader finds from `p` on, and where the last ends.
pub open spec fn records_at(s: Seq<u8>, p: int, n: int) -> Option<(Seq<Line>, int)>
    decreases n,
{
    if n <= 0 {
        Some((Seq::<Line>::empty(), p))
    } else {
        match records_at(s, p, n - 1) {
            None => None,
            Some((init, q)) => match record_at(s, q) {
                None => None,
                Some((line, r)) => Some((init.push(line), r)),
            },
        }
    }
}

/// The header table at the start of `s`, and where the body starts; `None`
/// where `s` does not start with a well-formed table.
pub open spec fn header_at(s: Seq<u8>) -> Option<(Seq<Line>, int)> {
    match len_at(s, 0, 0x80, 0xde, 0xdf) {
        None => None,
        Some((n, p)) => records_at(s, p, n),
    }
}

/// The header table of an archive at the start of `s`, and where the body
/// starts: a well-formed table in which no name stands twice.
pub open spec fn table_at(s: Seq<u8>) -> Option<(Seq<Line>, int)> {
    match header_at(s) {
        None => None,
        Some((ls, next)) => if names_distinct(ls) {
            Some((ls, next))
        } else {
            None
        },
    }
}

/// The lines of a table as the contracts see them.
pub open spec fn lines(t: Seq<Record>) -> Seq<Line> {
    Seq::new(t.len(), |i: int| (t[i].name@, t[i].entry))
}

proof fn lemma_records_stay_lost(s: Seq<u8>, p: int, m: int, n: int)
    requires
        0 <= m <= n,
        records_at(s, p, m) is None,
    ensures
        records_at(s, p, n) is None,
    decreases n - m,
{
    if m < n {
        lemma_records_stay_lost(s, p, m, n - 1);
    }
}

fn read_be16(src: &[u8], p: usize) -> (v: u32)
    requires
        p + 2 <= src@.len(),
    ensures
        v == be16_at(src@, p as int),
{
    src[p] as u32 * 256 + src[p + 1] as u32
}

fn read_be32(src: &[u8], p: usize) -> (v: u32)
    requires
        p + 4 <= src@.len(),
    ensures
        v == be32_at(src@, p as int),
{
    let v: u64 = src[p] as u64 * 0x100_0000 + src[p + 1] as u64 * 0x1_0000 + src[p + 2] as u64
        * 0x100 + src[p + 3] as u64;
    v as u32
}

/// Reads a container length at `p`.
pub fn read_len(src: &[u8], p: usize, fix: u8, m16: u8, m32: u8) -> (r: Option<(u32, usize)>)
    ensures
        match r {
            Some((v, q)) => len_at(src@, p as int, fix, m16, m32) == Some((v as int, q as int)),
            None => len_at(src@, p as int, fix, m16, m32) is None,
        },
{
    if p >= src.len() {
        return None;
    }
    let m: u8 = src[p];
    let left: usize = src.len() - p;
    if m >= fix && m - fix < 16 {
        Some(((m - fix) as u32, p + 1))
    } else if m == m16 && left >= 3 {
        Some((read_be16(src, p + 1), p + 3))
    } else if m == m32 && left >= 5 {
        Some((read_be32(src, p + 1), p + 5))
    } else {
        None
    }
}

/// Reads a string length at `p`.
pub fn read_str_len(src: &[u8], p: usize) -> (r: Option<(u32, usize)>)
    ensures
        match r {
            Some((v, q)) => str_len_at(src@, p as int) == Some((v as int, q as int)),
            None => str_len_at(src@, p as int) is None,
        },
{
    if p >= src.len() {
        return None;
    }
    let m: u8 = src[p];
    let left: usize = src.len() - p;
    if m >= 0xa0 && m < 0xc0 {
        Some(((m - 0xa0) as u32, p + 1))
    } else if m == 0xd9 && left >= 2 {
        Some((src[p + 1] as u32, p + 2))
    } else if m == 0xda && left >= 3 {
        Some((read_be16(src, p + 1), p + 3))
    } else if m == 0xdb && left >= 5 {
        Some((read_be32(src, p + 1), p + 5))
    } else {
        None
    }
}

/// Reads an unsigned integer of at most 32 bits at `p`, in any integer
/// form.
pub fn read_uint(src: &[u8], p: usize) -> (r: Option<(u32, usize)>)
    ensures
        match r {
            Some((v, q)) => uint_at(src@, p as int) == Some((v as int, q as int)),
            None => uint_at(src@, p as int) is None,
        },
{
    if p >= src.len() {
        return None;
    }
    let m: u8 = src[p];
    let left: usize = src.len() - p;
    if m < 128 {
        Some((m as u32, p + 1))
    } else if m == 0xcc && left >= 2 {
        Some((src[p + 1] as u32, p + 2))
    } else if m == 0xcd && left >= 3 {
        Some((read_be16(src, p + 1), p + 3))
    } else if m == 0xce && left >= 5 {
        Some((read_be32(src, p + 1), p + 5))
    } else if (m == 0xcf || m == 0xd3) && left >= 9 && src[p + 1] == 0 && src[p + 2] == 0 && src[p
        + 3] == 0 && src[p + 4] == 0 {
        Some((read_be32(src, p + 5), p + 9))
    } else if m == 0xd0 && left >= 2 && src[p + 1] < 128 {
        Some((src[p + 1] as u32, p + 2))
    } else if m == 0xd1 && left >= 3 && src[p + 1] < 128 {
        Some((read_be16(src, p + 1), p + 3))
    } else if m == 0xd2 && left >= 5 && src[p + 1] < 128 {
        Some((read_be32(src, p + 1), p + 5))
    } else {
        None
    }
}

/// Whether the key `offset` (else: the key `length`) stands at `p`.
pub fn has_key(src: &[u8], p: usize, offset: bool) -> (r: bool)
    ensures
        r == key_at(
            src@,
            p as int,
            if offset {
                offset_key()
            } else {
                length_key()
            },
        ),
{
    if p > src.len() || src.len() - p < 7 {
        return false;
    }
    let key: [u8; 7] = if offset {
        [0xa6, 0x6f, 0x66, 0x66, 0x73, 0x65, 0x74]
    } else {
        [0xa6, 0x6c, 0x65, 0x6e, 0x67, 0x74, 0x68]
    };
    let ghost want = if offset {
        offset_key()
    } else {
        length_key()
    };
    let ghost got = src@.subrange(p as int, p + 7);
    let mut i: usize = 0;
    while i < 7
        invariant
            i <= 7,
            p + 7 <= src.len(),
            got == src@.subrange(p as int, p + 7),
            want == if offset {
                offset_key()
            } else {
                length_key()
            },
            want.len() == 7,
            forall|k: int| 0 <= k < 7 ==> key@[k] == want[k],
            forall|k: int| 0 <= k < i ==> got[k] == want[k],
        decreases 7 - i,
    {
        if src[p + i] != key[i] {
            assert(got[i as int] != want[i as int]);
            return false;
        }
        i += 1;
    }
    assert(got =~= want);
    true
}

/// Reads a range in its named form at `p`.
pub fn read_named_pair(src: &[u8], p: usize) -> (r: Option<(HeaderEntry, usize)>)
    ensures
        match r {
            Some((e, q)) => named_pair_at(src@, p as int) == Some((e, q as int)),
            None => named_pair_at(src@, p as int) is None,
        },
{
    let (k, q) = match read_len(src, p, 0x80, 0xde, 0xdf) {
        None => {
            return None;
        },
        Some(found) => found,
    };
    if k != 2 {
        return None;
    }
    let n: usize = src.len();
    let offset_first = has_key(src, q, true);
    if !offset_first && !has_key(src, q, false) {
        return None;
    }
    assert(q + 7 <= n);
    let (first, r) = match read_uint(src, q + 7) {
        None => {
            return None;
        },
        Some(found) => found,
    };
    if !has_key(src, r, !offset_first) {
        return None;
    }
    assert(r + 7 <= n);
    match read_uint(src, r + 7) {
        None => None,
        Some((second, t)) => if offset_first {
            Some((HeaderEntry { offset: first, length: second }, t))
        } else {
            Some((HeaderEntry { offset: second, length: first }, t))
        },
    }
}

/// Reads a range at `p`: the pair `[offset, length]`, or the named form.
pub fn read_pair(src: &[u8], p: usize) -> (r: Option<(HeaderEntry, usize)>)
    ensures
        match r {
            Some((e, q)) => pair_at(src@, p as int) == Some((e, q as int)),
            None => pair_at(src@, p as int) is None,
        },
{
    match read_len(src, p, 0x90, 0xdc, 0xdd) {
        None => read_named_pair(src, p),
        Some((k, q)) => {
            if k != 2 {
                return None;
            }
            match read_uint(src, q) {
                None => None,
                Some((offset, r)) => match read_uint(src, r) {
                    None => None,
                    Some((length, t)) => Some((HeaderEntry { offset, length }, t)),
                },
            }
        },
    }
}

/// Reads one line of the table at `p`.
pub fn read_record(src: &[u8], p: usize) -> (r: Option<(Record, usize)>)
    ensures
        match r {
            Some((rec, q)) => record_at(src@, p as int) == Some(
                ((rec.name@, rec.entry), q as int),
            ),
            None => record_at(src@, p as int) is None,
        },
{
    match read_str_len(src, p) {
        None => None,
        Some((n, q)) => {
            if n as usize > src.len() - q {
                return None;
            }
            let bytes = slice_to_vec(slice_subrange(src, q, q + n as usize));
            match string_of(bytes) {
                None => None,
                Some(name) => match read_pair(src, q + n as usize) {
                    None => None,
                    Some((entry, r)) => Some((Record { name, entry }, r)),
                },
            }
        },
    }
}

/// Reads the header table from the start of `src` and says where the body
/// starts.
///
/// Fails with `Decode` exactly where `src` does not start with a well-formed
/// table.
pub fn decode_table(src: &[u8]) -> (r: Result<(Vec<Record>, usize), ArchiveError>)
    ensures
        match r {
            Ok((table, next)) => header_at(src@) == Some((lines(table@), next as int)),
            Err(e) => e == ArchiveError::Decode && header_at(src@) is None,
        },
{
    let (n, start) = match read_len(src, 0, 0x80, 0xde, 0xdf) {
        None => {
            return Err(ArchiveError::Decode);
        },
        Some(found) => found,
    };
    let mut table: Vec<Record> = Vec::new();
    let mut p: usize = start;
    let mut i: u32 = 0;
    assert(lines(table@) == Seq::<Line>::empty());
    while i < n
        invariant
            i <= n,
            len_at(src@, 0, 0x80, 0xde, 0xdf) == Some((n as int, start as int)),
            records_at(src@, start as int, i as int) == Some((lines(table@), p as int)),
        decreases n - i,
    {
        let ghost before = table@;
        match read_record(src, p) {
            None => {
                proof {
                    assert(records_at(src@, start as int, i + 1) is None);
                    lemma_records_stay_lost(src@, start as int, i + 1, n as int);
                }
                return Err(ArchiveError::Decode);
            },
            Some((rec, q)) => {
                table.push(rec);
                p = q;
                assert(lines(table@) == lines(before).push((rec.name@, rec.entry)));
            },
        }
        i += 1;
    }
    Ok((table, p))
}

impl Archive {
    /// The archive as it stands in a file: the header table, then the body.
    ///
    /// Fails with `TooLarge` exactly where the table is not encodable.
    pub fn to_bytes(&self) -> (r: Result<Vec<u8>, ArchiveError>)
        ensures
            r is Ok <==> encodable(self.table@),
            match r {
                Ok(out) => out@ == table_bytes(self.table@) + self.body@,
                Err(e) => e == ArchiveError::TooLarge,
            },
    {
        match encode_table(&self.table) {
            Err(e) => Err(e),
            Ok(out) => {
                let mut out = out;
                out.extend_from_slice(self.body.as_slice());
                Ok(out)
            },
        }
    }

    /// Reads an archive from the bytes of a file: the header table from the
    /// start, and as the body everything behind it. The lines come in the
    /// order in which the file has them, and no two of them share a name.
    ///
    /// Fails with `Decode` exactly where `src` does not start with a
    /// well-formed table of distinct names.
    pub fn from_bytes(src: &[u8]) -> (r: Result<Archive, ArchiveError>)
        ensures
            match r {
                Ok(a) => table_at(src@) matches Some((ls, next)) && {
                    &&& ls == lines(a.table@)
                    &&& names_distinct(a.table@)
                    &&& 0 <= next <= src@.len()
                    &&& a.body@ == src@.skip(next)
                },
                Err(e) => e == ArchiveError::Decode && table_at(src@) is None,
            },
    {
        match decode_table(src) {
            Err(e) => Err(e),
            Ok((table, next)) => {
                proof {
                    lemma_header_end(src@);
                    lemma_distinct_lines(table@);
                }
                if !all_distinct(&table) {
                    return Err(ArchiveError::Decode);
                }
                let body = slice_to_vec(slice_subrange(src, next, src.len()));
                Ok(Archive { table, body })
            },
        }
    }
}

/// Whether no two lines of the table carry the same name.
pub fn all_distinct(table: &Vec<Record>) -> (r: bool)
    ensures
        r == names_distinct(table@),
{
    let mut j: usize = 0;
    while j < table.len()
        invariant
            j <= table@.len(),
            forall|a: int, b: int|
                0 <= a < b < j ==> (#[trigger] table@[a]).name@ != (#[trigger] table@[b]).name@,
        decreases table@.len() - j,
    {
        let mut i: usize = 0;
        while i < j
            invariant
                i <= j < table@.len(),
                forall|a: int| 0 <= a < i ==> (#[trigger] table@[a]).name@ != table@[j as int].name@,
            decreases j - i,
        {
            if table[i].name == table[j].name {
                return false;
            }
            i += 1;
        }
        j += 1;
    }
    true
}

proof fn lemma_distinct_lines(t: Seq<Record>)
    ensures
        names_distinct(t) == names_distinct(lines(t)),
{
    let ls = lines(t);
    if names_distinct(t) {
        assert forall|i: int, j: int| 0 <= i < j < ls.len() implies (#[trigger] ls[i]).0 != (
        #[trigger] ls[j]).0 by {
            assert(t[i].name@ != t[j].name@);
        }
    }
    if names_distinct(ls) {
        assert forall|i: int, j: int| 0 <= i < j < t.len() implies (#[trigger] t[i]).name@ != (
        #[trigger] t[j]).name@ by {
            assert(ls[i].0 != ls[j].0);
        }
    }
}

proof fn lemma_record_end(s: Seq<u8>, p: int)
    requires
        0 <= p <= s.len(),
    ensures
        record_at(s, p) matches Some((line, q)) ==> p <= q <= s.len(),
{
}

proof fn lemma_records_end(s: Seq<u8>, p: int, n: int)
    requires
        0 <= p <= s.len(),
    ensures
        records_at(s, p, n) matches Some((ls, q)) ==> p <= q <= s.len(),
    decreases n,
{
    if n > 0 {
        lemma_records_end(s, p, n - 1);
        match records_at(s, p, n - 1) {
            None => {},
            Some((init, q)) => {
                lemma_record_end(s, q);
            },
        }
    }
}

/// A header table ends inside the bytes it was read from.
pub proof fn lemma_header_end(s: Seq<u8>)
    ensures
        header_at(s) matches Some((ls, next)) ==> 0 <= next <= s.len(),
{
    match len_at(s, 0, 0x80, 0xde, 0xdf) {
        None => {},
        Some((n, p)) => {
            lemma_records_end(s, p, n);
        },
    }
}

/// The bytes `tok` stand in `s` from position `p` on.
pub open spec fn stands_at(s: Seq<u8>, p: int, tok: Seq<u8>) -> bool {
    &&& 0 <= p
    &&& p + tok.len() <= s.len()
    &&& s.subrange(p, p + tok.len()) == tok
}

proof fn lemma_byte_at(s: Seq<u8>, p: int, tok: Seq<u8>, k: int)
    requires
        stands_at(s, p, tok),
        0 <= k < tok.len(),
    ensures
        s[p + k] == tok[k],
{
    assert(s.subrange(p, p + tok.len())[k] == s[p + k]);
}

proof fn lemma_split(s: Seq<u8>, p: int, a: Seq<u8>, b: Seq<u8>)
    requires
        stands_at(s, p, a + b),
    ensures
        stands_at(s, p, a),
        stands_at(s, p + a.len(), b),
{
    let whole = a + b;
    assert forall|k: int| 0 <= k < a.len() implies s.subrange(p, p + a.len())[k] == a[k] by {
        lemma_byte_at(s, p, whole, k);
    }
    assert(s.subrange(p, p + a.len()) =~= a);
    assert forall|k: int| 0 <= k < b.len() implies s.subrange(
        p + a.len(),
        p + a.len() + b.len(),
    )[k] == b[k] by {
        lemma_byte_at(s, p, whole, a.len() + k);
    }
    assert(s.subrange(p + a.len(), p + a.len() + b.len()) =~= b);
}

proof fn lemma_len_reads(s: Seq<u8>, p: int, n: u32, fix: u8, m16: u8, m32: u8)
    requires
        stands_at(s, p, len_token(n, fix, m16, m32)),
        fix <= 0x90,
        m16 >= 0xdc,
        m32 >= 0xdc,
        m16 != m32,
    ensures
        len_at(s, p, fix, m16, m32) == Some((n as int, p + len_token(n, fix, m16, m32).len())),
{
    let tok = len_token(n, fix, m16, m32);
    lemma_byte_at(s, p, tok, 0);
    if n < 16 {
    } else if n < 65536 {
        lemma_byte_at(s, p, tok, 1);
        lemma_byte_at(s, p, tok, 2);
        assert(be16_at(s, p + 1) == n);
    } else {
        lemma_byte_at(s, p, tok, 1);
        lemma_byte_at(s, p, tok, 2);
        lemma_byte_at(s, p, tok, 3);
        lemma_byte_at(s, p, tok, 4);
        let u = n as int;
        assert(tok[1] == (u / 0x100_0000 % 256) as u8);
        assert(tok[2] == (u / 0x1_0000 % 256) as u8);
        assert(tok[3] == (u / 0x100 % 256) as u8);
        assert(tok[4] == (u % 256) as u8);
        assert(be32_at(s, p + 1) == n);
    }
}

proof fn lemma_uint_reads(s: Seq<u8>, p: int, v: u32)
    requires
        stands_at(s, p, uint_token(v)),
    ensures
        uint_at(s, p) == Some((v as int, p + uint_token(v).len())),
{
    let tok = uint_token(v);
    lemma_byte_at(s, p, tok, 0);
    if v < 128 {
    } else if v < 256 {
        lemma_byte_at(s, p, tok, 1);
    } else if v < 65536 {
        lemma_byte_at(s, p, tok, 1);
        lemma_byte_at(s, p, tok, 2);
        assert(be16_at(s, p + 1) == v);
    } else {
        lemma_byte_at(s, p, tok, 1);
        lemma_byte_at(s, p, tok, 2);
        lemma_byte_at(s, p, tok, 3);
        lemma_byte_at(s, p, tok, 4);
        let u = v as int;
        assert(tok[1] == (u / 0x100_0000 % 256) as u8);
        assert(tok[2] == (u / 0x1_0000 % 256) as u8);
        assert(tok[3] == (u / 0x100 % 256) as u8);
        assert(tok[4] == (u % 256) as u8);
        assert(be32_at(s, p + 1) == v);
    }
}

proof fn lemma_str_reads(s: Seq<u8>, p: int, bytes: Seq<u8>)
    requires
        stands_at(s, p, str_token(bytes)),
        bytes.len() <= u32::MAX,
    ensures
        str_len_at(s, p) matches Some((n, q)) && {
            &&& n == bytes.len()
            &&& q + n == p + str_token(bytes).len()
            &&& stands_at(s, q, bytes)
        },
{
    let n = bytes.len();
    let head = if n < 32 {
        seq![(0xa0 + n) as u8]
    } else if n < 256 {
        seq![0xd9u8, n as u8]
    } else if n < 65536 {
        seq![0xdau8] + be16(n as int)
    } else {
        seq![0xdbu8] + be32(n as int)
    };
    assert(str_token(bytes) == head + bytes);
    lemma_split(s, p, head, bytes);
    lemma_byte_at(s, p, head, 0);
    if n < 32 {
    } else if n < 256 {
        lemma_byte_at(s, p, head, 1);
    } else if n < 65536 {
        lemma_byte_at(s, p, head, 1);
        lemma_byte_at(s, p, head, 2);
        assert(be16_at(s, p + 1) == n);
    } else {
        lemma_byte_at(s, p, head, 1);
        lemma_byte_at(s, p, head, 2);
        lemma_byte_at(s, p, head, 3);
        lemma_byte_at(s, p, head, 4);
        let u = n as int;
        assert(head[1] == (u / 0x100_0000 % 256) as u8);
        assert(head[2] == (u / 0x1_0000 % 256) as u8);
        assert(head[3] == (u / 0x100 % 256) as u8);
        assert(head[4] == (u % 256) as u8);
        assert(be32_at(s, p + 1) == n);
    }
}

proof fn lemma_record_reads(s: Seq<u8>, p: int, r: Record)
    requires
        stands_at(s, p, record_bytes(r)),
        encode_utf8(r.name@).len() <= u32::MAX,
    ensures
        record_at(s, p) == Some(((r.name@, r.entry), p + record_bytes(r).len())),
{
    let name = encode_utf8(r.name@);
    let a = str_token(name);
    let b = array_len_token(2);
    let c = uint_token(r.entry.offset);
    let d = uint_token(r.entry.length);
    assert(record_bytes(r) == a + (b + (c + d)));
    lemma_split(s, p, a, b + (c + d));
    lemma_split(s, p + a.len(), b, c + d);
    lemma_split(s, p + a.len() + b.len(), c, d);
    lemma_str_reads(s, p, name);
    lemma_len_reads(s, p + a.len(), 2, 0x90, 0xdc, 0xdd);
    lemma_uint_reads(s, p + a.len() + b.len(), r.entry.offset);
    lemma_uint_reads(s, p + a.len() + b.len() + c.len(), r.entry.length);
    encode_utf8_valid_utf8(r.name@);
    encode_utf8_decode_utf8(r.name@);
}

proof fn lemma_records_read(s: Seq<u8>, p: int, t: Seq<Record>)
    requires
        stands_at(s, p, records_bytes(t)),
        encodable(t),
    ensures
        records_at(s, p, t.len() as int) == Some((lines(t), p + records_bytes(t).len())),
    decreases t.len(),
{
    if t.len() == 0 {
        assert(lines(t) =~= Seq::<Line>::empty());
    } else {
        let init = t.drop_last();
        lemma_split(s, p, records_bytes(init), record_bytes(t.last()));
        assert(encodable(init)) by {
            assert forall|i: int| 0 <= i < init.len() implies encode_utf8(
                (#[trigger] init[i]).name@,
            ).len() <= u32::MAX by {
                assert(init[i] == t[i]);
            }
        }
        lemma_records_read(s, p, init);
        lemma_record_reads(s, p + records_bytes(init).len(), t.last());
        assert(lines(t) =~= lines(init).push((t.last().name@, t.last().entry)));
    }
}

/// A table that was written is the table that is read: for every encodable
/// table and every body, reading the encoded table followed by the body
/// finds the same lines in the same order, and the body right behind them.
pub proof fn lemma_table_reads_back(t: Seq<Record>, body: Seq<u8>)
    requires
        encodable(t),
    ensures
        header_at(table_bytes(t) + body) == Some((lines(t), table_bytes(t).len() as int)),
        (table_bytes(t) + body).skip(table_bytes(t).len() as int) == body,
{
    let s = table_bytes(t) + body;
    let head = map_len_token(t.len() as u32);
    assert(s.skip(table_bytes(t).len() as int) =~= body);
    assert(stands_at(s, 0, head + records_bytes(t))) by {
        assert(s.subrange(0, table_bytes(t).len() as int) =~= table_bytes(t));
    }
    lemma_split(s, 0, head, records_bytes(t));
    assert(len_at(s, 0, 0x80, 0xde, 0xdf) == Some((t.len() as int, head.len() as int))) by {
        lemma_len_reads(s, 0, t.len() as u32, 0x80, 0xde, 0xdf);
    }
    lemma_records_read(s, head.len() as int, t);
}

} // verus!
