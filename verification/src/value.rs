//! Documents as values: the dynamic value that a document's text and its
//! structured encoding both stand for, and the way in and out of an archive
//! for documents given as values or as text.
use crate::archive::{
    contiguous, extracted, has_name, holds, replaced, Archive, Document, HeaderEntry,
};
use crate::envelope::{bytes_of, stored_bound, wraps, LARGEST_INPUT};
use crate::error::ArchiveError;
use vstd::prelude::*;

verus! {

/// The dynamic value of the MessagePack data model. Its inside is not
/// looked at here: a value is only carried from one codec to the other.
#[verifier::external_type_specification]
#[verifier::external_body]
pub struct ExValue(rmpv::Value);

/// The MessagePack encoding that `rmp_serde::to_vec` gives a value; `None`
/// where it reports an error.
pub uninterp spec fn encoding_of(value: rmpv::Value) -> Option<Seq<u8>>;

/// The value that `rmp_serde::from_slice` reads at the start of the bytes;
/// `None` where it reports an error.
pub uninterp spec fn decoded(bytes: Seq<u8>) -> Option<rmpv::Value>;

/// The value that `serde_json::from_slice` reads from JSON text; `None`
/// where it reports an error.
pub uninterp spec fn json_value(text: Seq<u8>) -> Option<rmpv::Value>;

/// The JSON text that `serde_json::to_vec` gives a value; `None` where it
/// reports an error.
pub uninterp spec fn json_text(value: rmpv::Value) -> Option<Seq<u8>>;

/// Encodes a value in MessagePack.
///
/// Calls `rmp_serde::to_vec`, whose result depends on the value alone.
#[verifier::external_body]
pub(crate) fn encode_value(value: &rmpv::Value) -> (r: Option<Vec<u8>>)
    ensures
        match r {
            Some(bytes) => encoding_of(*value) == Some(bytes@),
            None => encoding_of(*value) is None,
        },
{
    rmp_serde::to_vec(value).ok()
}

/// Decodes the one MessagePack value at the start of `bytes`.
///
/// Calls `rmp_serde::from_slice`, which reads one value and leaves what
/// follows it unread; its result depends on the bytes alone.
#[verifier::external_body]
pub(crate) fn decode_value(bytes: &[u8]) -> (r: Option<rmpv::Value>)
    ensures
        r == decoded(bytes@),
{
    rmp_serde::from_slice(bytes).ok()
}

/// Reads a value from JSON text.
///
/// Calls `serde_json::from_slice`, whose result depends on the text alone.
#[verifier::external_body]
pub(crate) fn parse_json(text: &[u8]) -> (r: Option<rmpv::Value>)
    ensures
        r == json_value(text@),
{
    serde_json::from_slice(text).ok()
}

/// Writes a value as JSON text.
///
/// Calls `serde_json::to_vec`, whose result depends on the value alone. It
/// fails on a value that JSON cannot express, such as a map with an array
/// for a key.
#[verifier::external_body]
pub(crate) fn print_json(value: &rmpv::Value) -> (r: Option<Vec<u8>>)
    ensures
        match r {
            Some(text) => json_text(*value) == Some(text@),
            None => json_text(*value) is None,
        },
{
    serde_json::to_vec(value).ok()
}

/// The plain encoding of a value, or `Encode` where it has none.
pub open spec fn plain_of_value(value: rmpv::Value) -> Result<Seq<u8>, ArchiveError> {
    match encoding_of(value) {
        Some(plain) => Ok(plain),
        None => Err(ArchiveError::Encode),
    }
}

/// The plain encoding of a document given as text: `Text` where the text
/// is not JSON, else the plain encoding of its value.
pub open spec fn plain_of_text(text: Seq<u8>) -> Result<Seq<u8>, ArchiveError> {
    match json_value(text) {
        Some(value) => plain_of_value(value),
        None => Err(ArchiveError::Text),
    }
}

/// The value behind a plain encoding, or `Decode` where it is none.
pub open spec fn value_of_plain(plain: Seq<u8>) -> Result<rmpv::Value, ArchiveError> {
    match decoded(plain) {
        Some(value) => Ok(value),
        None => Err(ArchiveError::Decode),
    }
}

/// The text of a document given as plain encoding: `Decode` where the
/// bytes are no value, `Text` where the value has no JSON text.
pub open spec fn text_of_plain(plain: Seq<u8>) -> Result<Seq<u8>, ArchiveError> {
    match decoded(plain) {
        Some(value) => match json_text(value) {
            Some(text) => Ok(text),
            None => Err(ArchiveError::Text),
        },
        None => Err(ArchiveError::Decode),
    }
}

/// `after` is `before` with one more entry, recorded under `name` as the
/// last line of the table and stored at the end of the body.
pub open spec fn recorded(before: Archive, after: Archive, name: Seq<char>) -> bool {
    &&& after.table@.len() > 0
    &&& after.table@ == replaced(before.table@, after.table@.last())
    &&& after.table@.last().name@ == name
    &&& after.table@.last().entry.offset == before.body@.len()
    &&& after.table@.last().entry.end() == after.body@.len()
    &&& after.body@.subrange(0, before.body@.len() as int) == before.body@
}

/// What adding the plain encoding `plain` under `name` owes, from `before`
/// to `after` with the result `r`: everything that `Archive::add` states.
pub open spec fn added(
    before: Archive,
    after: Archive,
    name: Seq<char>,
    plain: Seq<u8>,
    compress: bool,
    r: Result<(), ArchiveError>,
) -> bool {
    &&& r matches Err(e) ==> after == before && (e == ArchiveError::TooLarge || (e
        == ArchiveError::Compression && wraps(plain.len(), compress)))
    &&& !wraps(plain.len(), compress) ==> (r is Err <==> before.body@.len() + plain.len()
        > u32::MAX)
    &&& plain.len() <= LARGEST_INPUT && before.body@.len() + stored_bound(plain.len(), compress)
        <= u32::MAX ==> r is Ok
    &&& r is Ok ==> {
        &&& recorded(before, after, name)
        &&& holds(after.body@, after.table@.last().entry, plain, compress)
        &&& after.body@.len() <= before.body@.len() + stored_bound(plain.len(), compress)
    }
    &&& r is Ok && !has_name(before.table@, name) && contiguous(
        before.table@,
        before.body@.len() as int,
    ) ==> contiguous(after.table@, after.body@.len() as int)
}

/// The plain encoding of a document given as JSON text.
pub fn encode_text(text: &[u8]) -> (r: Result<Vec<u8>, ArchiveError>)
    ensures
        bytes_of(r) == plain_of_text(text@),
{
    match parse_json(text) {
        None => Err(ArchiveError::Text),
        Some(value) => match encode_value(&value) {
            None => Err(ArchiveError::Encode),
            Some(plain) => Ok(plain),
        },
    }
}

/// The JSON text of a document given as plain encoding.
pub fn decode_text(plain: &[u8]) -> (r: Result<Vec<u8>, ArchiveError>)
    ensures
        bytes_of(r) == text_of_plain(plain@),
{
    match decode_value(plain) {
        None => Err(ArchiveError::Decode),
        Some(value) => match print_json(&value) {
            None => Err(ArchiveError::Text),
            Some(text) => Ok(text),
        },
    }
}

impl Archive {
    /// Encodes a value and adds it as the document `name`.
    ///
    /// `Encode`, with the archive as it was, exactly where the value has no
    /// encoding; otherwise as `add` does with the encoding.
    pub fn add_value(&mut self, name: String, value: &rmpv::Value, compress: bool) -> (r: Result<
        (),
        ArchiveError,
    >)
        ensures
            old(self).wf() ==> final(self).wf(),
            match plain_of_value(*value) {
                Err(x) => r == Err::<(), ArchiveError>(x) && *final(self) == *old(self),
                Ok(plain) => added(*old(self), *final(self), name@, plain, compress, r),
            },
    {
        match encode_value(value) {
            None => Err(ArchiveError::Encode),
            Some(plain) => self.add(Document { name, plain }, compress),
        }
    }

    /// Reads a document's JSON text and adds it as the document `name`.
    ///
    /// `Text`, with the archive as it was, exactly where the text is not
    /// JSON; otherwise as `add_value` does with the value.
    pub fn add_json(&mut self, name: String, text: &[u8], compress: bool) -> (r: Result<
        (),
        ArchiveError,
    >)
        ensures
            old(self).wf() ==> final(self).wf(),
            match plain_of_text(text@) {
                Err(x) => r == Err::<(), ArchiveError>(x) && *final(self) == *old(self),
                Ok(plain) => added(*old(self), *final(self), name@, plain, compress, r),
            },
    {
        match parse_json(text) {
            None => Err(ArchiveError::Text),
            Some(value) => self.add_value(name, &value, compress),
        }
    }

    /// The value of the entry `e`: what its plain encoding decodes to.
    ///
    /// Where the entry cannot be extracted, the error of `extract`; `Decode`
    /// exactly where its plain encoding is not a value.
    pub fn value_at(&self, e: HeaderEntry) -> (r: Result<rmpv::Value, ArchiveError>)
        ensures
            r == match extracted(self.body@, e) {
                Err(x) => Err(x),
                Ok(plain) => value_of_plain(plain),
            },
    {
        match self.extract(e) {
            Err(x) => Err(x),
            Ok(plain) => match decode_value(plain.as_slice()) {
                None => Err(ArchiveError::Decode),
                Some(value) => Ok(value),
            },
        }
    }

    /// The JSON text of the entry `e`.
    ///
    /// Where the entry cannot be extracted, the error of `extract`; `Decode`
    /// where its plain encoding is not a value; `Text` where the value has
    /// no JSON text.
    pub fn json_at(&self, e: HeaderEntry) -> (r: Result<Vec<u8>, ArchiveError>)
        ensures
            bytes_of(r) == match extracted(self.body@, e) {
                Err(x) => Err(x),
                Ok(plain) => text_of_plain(plain),
            },
    {
        match self.extract(e) {
            Err(x) => Err(x),
            Ok(plain) => decode_text(plain.as_slice()),
        }
    }
}

} // verus!
