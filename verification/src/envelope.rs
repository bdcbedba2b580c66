//! The compression envelope: an extension value of type 99 whose payload is
//! the length of the plain encoding, as a 32-bit signed integer token,
//! followed by the LZ4 block of that encoding.
use crate::error::ArchiveError;
use crate::token::{
    ext_head, ext_meta, i32_at, i32_token, lemma_ext_meta_reads_back,
    lemma_i32_token_reads_back, put_ext_meta, put_i32, read_ext_head, take_i32,
};
use vstd::prelude::*;
use vstd::slice::{slice_subrange, slice_to_vec};

verus! {

/// The extension type that marks a compressed entry.
pub const ENVELOPE_TAG: i8 = 99;

/// The longest plain encoding that is stored as it is.
pub const THRESHOLD: usize = 64;

/// The longest input that the compressor takes.
pub const LARGEST_INPUT: usize = 0x7E00_0000;

/// The longest block that the compressor makes of `n` bytes.
pub open spec fn block_bound(n: nat) -> nat {
    n + n / 255 + 16
}

/// The most bytes that an entry of `n` plain bytes takes in the body: with
/// an envelope, its header, the length token and the longest block.
pub open spec fn stored_bound(n: nat, compress: bool) -> nat {
    if wraps(n, compress) {
        block_bound(n) + 11
    } else {
        n
    }
}

/// What `lz4::block::decompress` makes of `block` when told that it expands
/// to `size` bytes; `None` where it reports an error.
pub uninterp spec fn lz4_expansion(block: Seq<u8>, size: i32) -> Option<Seq<u8>>;

/// Compresses `plain` into one LZ4 block, without a size prefix.
///
/// Calls `lz4::block::compress` in its default mode. It refuses an input of
/// more than `i32::MAX` bytes, reports a block of no bytes as a failure, and
/// cuts the block out of a buffer of the size that the C library gives as
/// the bound for the input: the input's length, a 255th of it, and 16. For
/// an input of more than `0x7E000000` bytes that bound is 0, which the call
/// reports as an error; for every other input the C library documents that
/// compression into a buffer of that size succeeds. The block expands to the
/// input again when `lz4::block::decompress` is given the input's length, as
/// the crate documents for this pair of calls.
#[verifier::external_body]
pub(crate) fn lz4_compress(plain: &[u8]) -> (r: Option<Vec<u8>>)
    ensures
        r is Some <==> plain@.len() <= LARGEST_INPUT,
        r matches Some(block) ==> {
            &&& plain@.len() <= i32::MAX
            &&& 0 < block@.len() <= i32::MAX
            &&& block@.len() <= block_bound(plain@.len())
            &&& lz4_expansion(block@, plain@.len() as i32) == Some(plain@)
        },
{
    lz4::block::compress(plain, None, false).ok()
}

/// Expands one LZ4 block that is said to hold `size` bytes.
///
/// Calls `lz4::block::decompress` with the size given. It refuses a negative
/// size, expands into a buffer of `size` bytes and hands back what was
/// written, so never more than `size` bytes.
#[verifier::external_body]
pub(crate) fn lz4_decompress(block: &[u8], size: i32) -> (r: Option<Vec<u8>>)
    ensures
        r matches Some(plain) ==> lz4_expansion(block@, size) == Some(plain@),
        r is None ==> lz4_expansion(block@, size) is None,
        r matches Some(plain) ==> 0 <= size && plain@.len() <= size,
{
    lz4::block::decompress(block, Some(size)).ok()
}

/// The payload of an envelope: the recorded length, then the block.
pub open spec fn envelope_payload(plain_len: i32, block: Seq<u8>) -> Seq<u8> {
    i32_token(plain_len) + block
}

/// The encoding of an envelope: the extension header, then the payload.
pub open spec fn envelope_bytes(plain_len: i32, block: Seq<u8>) -> Seq<u8> {
    ext_meta((5 + block.len()) as u32, ENVELOPE_TAG) + envelope_payload(plain_len, block)
}

/// `stored` is an envelope that records the length of `plain` around a
/// block that expands to `plain`.
pub open spec fn is_envelope_of(stored: Seq<u8>, plain: Seq<u8>) -> bool {
    &&& plain.len() <= i32::MAX
    &&& exists|block: Seq<u8>| #[trigger] seals(stored, plain, block)
}

/// `stored` is the envelope of `plain` around `block`.
pub open spec fn seals(stored: Seq<u8>, plain: Seq<u8>, block: Seq<u8>) -> bool {
    &&& 0 < block.len() <= i32::MAX
    &&& block.len() <= block_bound(plain.len())
    &&& lz4_expansion(block, plain.len() as i32) == Some(plain)
    &&& envelope_bytes(plain.len() as i32, block) == stored
}

/// Whether an entry of `plain_len` encoded bytes is stored in an envelope.
pub open spec fn wraps(plain_len: nat, compress: bool) -> bool {
    compress && plain_len > THRESHOLD
}

/// What the payload of an envelope holds: the plain encoding, if the payload
/// starts with a length and the block behind it expands to exactly that many
/// bytes.
pub open spec fn unwrapped(payload: Seq<u8>) -> Result<Seq<u8>, ArchiveError> {
    match i32_at(payload) {
        None => Err(ArchiveError::Decode),
        Some(size) => checked(size, lz4_expansion(payload.skip(5), size)),
    }
}

/// The expansion of a block, accepted only at the recorded size.
pub open spec fn checked(size: i32, expanded: Option<Seq<u8>>) -> Result<Seq<u8>, ArchiveError> {
    match expanded {
        Some(plain) => if plain.len() == size {
            Ok(plain)
        } else {
            Err(ArchiveError::Compression)
        },
        None => Err(ArchiveError::Compression),
    }
}

/// The plain encoding behind a stored entry: an entry that starts with an
/// extension header of type 99 is unwrapped, any other is plain already.
pub open spec fn opened(stored: Seq<u8>) -> Result<Seq<u8>, ArchiveError> {
    match ext_head(stored) {
        Some((tag, start, len)) => if tag != ENVELOPE_TAG {
            Ok(stored)
        } else if start + len <= stored.len() {
            unwrapped(stored.subrange(start, start + len))
        } else {
            Err(ArchiveError::Decode)
        },
        None => Ok(stored),
    }
}

/// The view of a result that holds bytes.
pub open spec fn bytes_of(r: Result<Vec<u8>, ArchiveError>) -> Result<Seq<u8>, ArchiveError> {
    match r {
        Ok(v) => Ok(v@),
        Err(e) => Err(e),
    }
}

/// Encodes the envelope that records `plain_len` bytes around `block`.
pub fn envelope(plain_len: i32, block: &[u8]) -> (stored: Vec<u8>)
    requires
        5 + block@.len() <= u32::MAX,
    ensures
        stored@ == envelope_bytes(plain_len, block@),
{
    let mut payload: Vec<u8> = Vec::new();
    put_i32(&mut payload, plain_len);
    payload.extend_from_slice(block);
    proof {
        lemma_i32_token_reads_back(plain_len, block@);
        assert(payload@ == envelope_payload(plain_len, block@));
    }
    let mut stored: Vec<u8> = Vec::new();
    put_ext_meta(&mut stored, payload.len() as u32, ENVELOPE_TAG);
    stored.extend_from_slice(payload.as_slice());
    stored
}

/// Compresses `plain` and wraps the block in an envelope.
///
/// Succeeds exactly on an input of at most `LARGEST_INPUT` bytes, and
/// fails with `Compression` on a longer one.
pub fn wrap(plain: &[u8]) -> (r: Result<Vec<u8>, ArchiveError>)
    ensures
        r is Ok <==> plain@.len() <= LARGEST_INPUT,
        match r {
            Ok(stored) => is_envelope_of(stored@, plain@) && stored@.len() <= block_bound(
                plain@.len(),
            ) + 11,
            Err(e) => e == ArchiveError::Compression,
        },
{
    match lz4_compress(plain) {
        Some(block) => {
            let stored = envelope(plain.len() as i32, block.as_slice());
            proof {
                assert(seals(stored@, plain@, block@));
                lemma_i32_token_reads_back(plain.len() as i32, block@);
            }
            Ok(stored)
        },
        None => Err(ArchiveError::Compression),
    }
}

/// The bytes to store for an entry whose plain encoding is `plain`: the
/// envelope where compression is on and `plain` is longer than the
/// threshold, else `plain` itself.
///
/// Fails, with `Compression`, exactly where an envelope is due for more
/// than `LARGEST_INPUT` bytes.
pub fn seal(plain: Vec<u8>, compress: bool) -> (r: Result<Vec<u8>, ArchiveError>)
    ensures
        !wraps(plain@.len(), compress) ==> bytes_of(r) == Ok::<Seq<u8>, ArchiveError>(plain@),
        wraps(plain@.len(), compress) ==> match r {
            Ok(stored) => is_envelope_of(stored@, plain@),
            Err(e) => e == ArchiveError::Compression,
        },
        r is Err <==> wraps(plain@.len(), compress) && plain@.len() > LARGEST_INPUT,
        r matches Ok(stored) ==> stored@.len() <= stored_bound(plain@.len(), compress),
{
    if compress && plain.len() > THRESHOLD {
        wrap(plain.as_slice())
    } else {
        Ok(plain)
    }
}

/// Accepts what the decompressor returned for a block recorded at `size`
/// bytes: the expansion if it has exactly that length, else `Compression`.
pub fn check_expansion(size: i32, expanded: Option<Vec<u8>>) -> (r: Result<Vec<u8>, ArchiveError>)
    ensures
        bytes_of(r) == checked(
            size,
            match expanded {
                Some(v) => Some(v@),
                None => None,
            },
        ),
{
    match expanded {
        Some(plain) => {
            if size >= 0 && plain.len() == size as usize {
                Ok(plain)
            } else {
                Err(ArchiveError::Compression)
            }
        },
        None => Err(ArchiveError::Compression),
    }
}

/// Recovers the plain encoding from the payload of an envelope.
///
/// `Decode` where the payload does not start with a 32-bit signed integer
/// token; `Compression` where the block behind it does not expand, or not to
/// the recorded length.
pub fn unwrap(payload: &[u8]) -> (r: Result<Vec<u8>, ArchiveError>)
    ensures
        bytes_of(r) == unwrapped(payload@),
{
    match take_i32(payload) {
        None => Err(ArchiveError::Decode),
        Some(size) => {
            let block = slice_subrange(payload, 5, payload.len());
            assert(block@ == payload@.skip(5));
            let expanded = lz4_decompress(block, size);
            check_expansion(size, expanded)
        },
    }
}

/// Recovers the plain encoding from a stored entry, unwrapping it where it
/// is an envelope.
///
/// `Decode` where an envelope's header announces more bytes than `stored`
/// has; otherwise as `unwrap`.
pub fn open(stored: &[u8]) -> (r: Result<Vec<u8>, ArchiveError>)
    ensures
        bytes_of(r) == opened(stored@),
{
    match read_ext_head(stored) {
        Some(h) => {
            if h.tag != ENVELOPE_TAG {
                Ok(slice_to_vec(stored))
            } else if h.len <= stored.len() - h.start {
                let payload = slice_subrange(stored, h.start, h.start + h.len);
                unwrap(payload)
            } else {
                Err(ArchiveError::Decode)
            }
        },
        None => Ok(slice_to_vec(stored)),
    }
}

/// An envelope opens to what its block expands to: for every recorded
/// length and block, opening the encoded envelope gives the block's
/// expansion checked against that length.
pub proof fn lemma_open_envelope(plain_len: i32, block: Seq<u8>)
    requires
        5 + block.len() <= u32::MAX,
    ensures
        opened(envelope_bytes(plain_len, block)) == checked(
            plain_len,
            lz4_expansion(block, plain_len),
        ),
{
    let payload = envelope_payload(plain_len, block);
    let n = (5 + block.len()) as u32;
    let head = ext_meta(n, ENVELOPE_TAG);
    let stored = envelope_bytes(plain_len, block);
    lemma_i32_token_reads_back(plain_len, block);
    lemma_ext_meta_reads_back(n, ENVELOPE_TAG, payload);
    assert(payload.len() == n);
    assert(stored.subrange(head.len() as int, head.len() + n) == payload);
    assert(payload.skip(5) == block);
}

/// Sealing and opening give the plain encoding back. It holds with
/// compression on or off, for every encoding that was sealed without an
/// error and that does not itself start as an extension value of type 99
/// (such a document cannot be told from an envelope).
pub proof fn lemma_seal_then_open(plain: Seq<u8>, compress: bool, stored: Seq<u8>)
    requires
        if wraps(plain.len(), compress) {
            is_envelope_of(stored, plain)
        } else {
            stored == plain && !looks_wrapped(plain)
        },
    ensures
        opened(stored) == Ok::<Seq<u8>, ArchiveError>(plain),
{
    if wraps(plain.len(), compress) {
        let block = choose|block: Seq<u8>| #[trigger] seals(stored, plain, block);
        lemma_open_envelope(plain.len() as i32, block);
    }
}

/// `stored` starts with an extension header of type 99.
pub open spec fn looks_wrapped(stored: Seq<u8>) -> bool {
    match ext_head(stored) {
        Some((tag, start, len)) => tag == ENVELOPE_TAG,
        None => false,
    }
}

} // verus!
