//! The two drivers: from documents to the bytes of an archive file, and
//! from the bytes of an archive file back to documents.
use crate::archive::{
    compressible, contiguous, covered, docs_distinct, extracted, fails, found, has_line_of,
    holds, in_body, is_line_of, keeps_last, last_of_name, lemma_packed_entry_opens, lemma_tiling, ordered,
    names_distinct, pack, packed_prefix, stored_total, Archive, Document, Named, Ranged,
};
use crate::envelope::{looks_wrapped, wraps};
use crate::error::ArchiveError;
use crate::header::{
    encodable, header_at, lemma_table_reads_back, lines, table_at, table_bytes,
    Line,
};
use vstd::prelude::*;

verus! {

/// `bytes` is an archive file of the documents `docs`, no two of which
/// share a name: its table has one line for each document, under its name
/// and in its place; the ranges tile the body; and each range holds its
/// document as packing stores it.
pub open spec fn packs(bytes: Seq<u8>, docs: Seq<Document>, compress: bool) -> bool {
    header_at(bytes) matches Some((ls, next)) && {
        &&& docs_distinct(docs, docs.len() as int)
        &&& 0 <= next <= bytes.len()
        &&& ls.len() == docs.len()
        &&& contiguous(ls, bytes.len() - next)
        &&& forall|i: int|
            0 <= i < ls.len() ==> {
                &&& (#[trigger] ls[i]).0 == docs[i].name@
                &&& holds(bytes.skip(next), ls[i].1, docs[i].plain@, compress)
            }
    }
}

/// The file has a table, and each document that is the last of its name
/// has its line there.
pub open spec fn file_keeps_last(bytes: Seq<u8>, docs: Seq<Document>, compress: bool) -> bool {
    header_at(bytes) matches Some((ls, next)) && {
        &&& 0 <= next <= bytes.len()
        &&& keeps_last(ls, bytes.skip(next), docs, docs.len() as int, compress)
    }
}

/// What unpacking owes for the file `src`: `Decode` where `src` does not
/// start with a header table of distinct names; else a document for each
/// line, under its name and in its place, with the plain encoding that its
/// range opens to; or the error of the first line that cannot be extracted.
pub open spec fn unpacks(src: Seq<u8>, r: Result<Vec<Document>, ArchiveError>) -> bool {
    match table_at(src) {
        None => r matches Err(e) && e == ArchiveError::Decode,
        Some((ls, next)) => match r {
            Ok(out) => {
                &&& out@.len() == ls.len()
                &&& forall|i: int|
                    0 <= i < ls.len() ==> {
                        &&& (#[trigger] out@[i]).name@ == ls[i].0
                        &&& extracted(src.skip(next), ls[i].1) == Ok::<Seq<u8>, ArchiveError>(
                            out@[i].plain@,
                        )
                    }
            },
            Err(e) => exists|i: int| #[trigger] first_failure(src.skip(next), ls, i, e),
        },
    }
}

/// Line `i` is the first that cannot be extracted, and `e` is why.
pub open spec fn first_failure(body: Seq<u8>, ls: Seq<Line>, i: int, e: ArchiveError) -> bool {
    &&& 0 <= i < ls.len()
    &&& extracted(body, ls[i].1) == Err::<Seq<u8>, ArchiveError>(e)
    &&& forall|j: int| 0 <= j < i ==> extracted(body, (#[trigger] ls[j]).1) is Ok
}

/// Packs the documents, in their order, into the bytes of an archive file.
///
/// Each document that is the last of its name has its line in the file.
/// Where no two documents share a name, the file is an archive of exactly
/// these documents. Packing succeeds wherever the names are distinct and
/// encodable, the compressor takes each document that is to be wrapped, and
/// a 32-bit offset addresses the body even with the longest envelopes.
pub fn repack(docs: &Vec<Document>, compress: bool) -> (r: Result<Vec<u8>, ArchiveError>)
    ensures
        match r {
            Ok(bytes) => {
                &&& file_keeps_last(bytes@, docs@, compress)
                &&& docs_distinct(docs@, docs@.len() as int) ==> packs(bytes@, docs@, compress)
            },
            Err(e) => e == ArchiveError::TooLarge || (e == ArchiveError::Compression && compress),
        },
        docs_distinct(docs@, docs@.len() as int) && encodable(docs@) && compressible(
            docs@,
            compress,
        ) && stored_total(docs@, docs@.len() as int, compress) <= u32::MAX ==> r is Ok,
{
    match pack(docs, compress) {
        Err(e) => Err(e),
        Ok(a) => {
            proof {
                if docs_distinct(docs@, docs@.len() as int) && encodable(docs@) {
                    assert(encodable(a.table@));
                }
            }
            match a.to_bytes() {
                Err(e) => Err(e),
                Ok(bytes) => {
                    proof {
                        if docs_distinct(docs@, docs@.len() as int) {
                            lemma_packs(a, docs@, compress);
                        }
                        lemma_table_reads_back(a.table@, a.body@);
                        let ls = lines(a.table@);
                        assert forall|i: int| #[trigger]
                            last_of_name(docs@, docs@.len() as int, i) implies has_line_of(
                            ls,
                            a.body@,
                            docs@[i],
                            compress,
                        ) by {
                            assert(has_line_of(a.table@, a.body@, docs@[i], compress));
                            let k = choose|k: int| #[trigger]
                                is_line_of(a.table@, a.body@, k, docs@[i], compress);
                            assert(ls[k] == (a.table@[k].name@, a.table@[k].entry));
                            assert(is_line_of(ls, a.body@, k, docs@[i], compress));
                        }
                    }
                    Ok(bytes)
                },
            }
        },
    }
}

proof fn lemma_packs(a: Archive, docs: Seq<Document>, compress: bool)
    requires
        docs_distinct(docs, docs.len() as int),
        packed_prefix(a, docs, docs.len() as int, compress),
        encodable(a.table@),
    ensures
        packs(table_bytes(a.table@) + a.body@, docs, compress),
{
    let bytes = table_bytes(a.table@) + a.body@;
    let t = a.table@;
    let ls = lines(t);
    lemma_table_reads_back(t, a.body@);
    assert forall|i: int| 0 <= i < ls.len() implies (#[trigger] ls[i]).1 == t[i].entry && ls[i].0
        == t[i].name@ by {}
    if ls.len() > 0 {
        assert(ls.last() == ls[ls.len() - 1]);
        assert forall|i: int| 0 <= i < ls.len() - 1 implies (#[trigger] ls[i]).range().end()
            == ls[i + 1].range().offset by {
            assert(t[i].range().end() == t[i + 1].range().offset);
        }
    }
}

/// Reads an archive file and extracts every document, in table order.
pub fn unpack(src: &[u8]) -> (r: Result<Vec<Document>, ArchiveError>)
    ensures
        unpacks(src@, r),
{
    match Archive::from_bytes(src) {
        Err(e) => Err(e),
        Ok(a) => {
            let r = a.unpack();
            proof {
                let ls = lines(a.table@);
                if r is Ok {
                    let out = r->Ok_0;
                    assert forall|i: int| 0 <= i < ls.len() implies {
                        &&& (#[trigger] out@[i]).name@ == ls[i].0
                        &&& extracted(a.body@, ls[i].1) == Ok::<Seq<u8>, ArchiveError>(
                            out@[i].plain@,
                        )
                    } by {
                        assert(found(a.body@, a.table@[i], out@[i]));
                    }
                } else {
                    let e = r->Err_0;
                    let i = choose|i: int|
                        {
                            &&& 0 <= i < a.table@.len()
                            &&& #[trigger] fails(a.body@, a.table@[i], e)
                            &&& forall|j: int|
                                0 <= j < i ==> extracted(
                                    a.body@,
                                    (#[trigger] a.table@[j]).entry,
                                ) is Ok
                        };
                    assert forall|j: int| 0 <= j < i implies extracted(
                        a.body@,
                        (#[trigger] ls[j]).1,
                    ) is Ok by {
                        assert(ls[j].1 == a.table@[j].entry);
                    }
                    assert(first_failure(a.body@, ls, i, e));
                }
            }
            r
        },
    }
}

/// Unpacking what was packed gives the documents back: whatever unpacking
/// owes for an archive file of `docs`, packed with compression on or off, is
/// a success with the same names and the same plain encodings in the same
/// order. A plain encoding that was stored as it is must not itself start
/// as an extension value of type 99, which cannot be told from an envelope.
pub proof fn lemma_unpack_repacked(
    bytes: Seq<u8>,
    docs: Seq<Document>,
    compress: bool,
    r: Result<Vec<Document>, ArchiveError>,
)
    requires
        packs(bytes, docs, compress),
        forall|i: int|
            0 <= i < docs.len() && !wraps((#[trigger] docs[i]).plain@.len(), compress)
                ==> !looks_wrapped(docs[i].plain@),
        unpacks(bytes, r),
    ensures
        r matches Ok(out) && {
            &&& out@.len() == docs.len()
            &&& forall|i: int|
                0 <= i < docs.len() ==> (#[trigger] out@[i]).name@ == docs[i].name@ && out@[i].plain@
                    == docs[i].plain@
        },
{
    let (ls, next) = header_at(bytes)->0;
    let body = bytes.skip(next);
    assert(names_distinct(ls)) by {
        assert forall|i: int, j: int| 0 <= i < j < ls.len() implies (#[trigger] ls[i]).0 != (
        #[trigger] ls[j]).0 by {
            assert(docs[i].name@ != docs[j].name@);
        }
    }
    assert forall|i: int| 0 <= i < ls.len() implies extracted(body, (#[trigger] ls[i]).1) == Ok::<
        Seq<u8>,
        ArchiveError,
    >(docs[i].plain@) by {
        lemma_packed_entry_opens(body, ls[i].1, docs[i].plain@, compress);
    }
    match r {
        Ok(out) => {
            assert forall|i: int| 0 <= i < docs.len() implies (#[trigger] out@[i]).name@
                == docs[i].name@ && out@[i].plain@ == docs[i].plain@ by {
                assert(extracted(body, ls[i].1) == Ok::<Seq<u8>, ArchiveError>(out@[i].plain@));
            }
        },
        Err(e) => {
            let i = choose|i: int| #[trigger] first_failure(body, ls, i, e);
            assert(extracted(body, ls[i].1) is Ok);
        },
    }
}

/// The ranges of an archive file of `docs` do not overlap, stay inside the
/// body, and leave no byte of it out.
pub proof fn lemma_packed_ranges(bytes: Seq<u8>, docs: Seq<Document>, compress: bool)
    requires
        packs(bytes, docs, compress),
    ensures
        header_at(bytes) matches Some((ls, next)) && {
            &&& ordered(ls)
            &&& in_body(ls, bytes.len() - next)
            &&& forall|k: int| 0 <= k < bytes.len() - next ==> #[trigger] covered(ls, k)
        },
{
    let (ls, next) = header_at(bytes)->0;
    lemma_tiling(ls, bytes.len() - next);
}

/// Unpacking reads nothing but the bytes: two results that unpacking may
/// give for one file are both the same error, or both a success with the
/// same names and the same plain encodings in the same order.
pub proof fn lemma_unpack_twice(
    src: Seq<u8>,
    first: Result<Vec<Document>, ArchiveError>,
    second: Result<Vec<Document>, ArchiveError>,
)
    requires
        unpacks(src, first),
        unpacks(src, second),
    ensures
        match (first, second) {
            (Ok(x), Ok(y)) => {
                &&& x@.len() == y@.len()
                &&& forall|i: int|
                    0 <= i < x@.len() ==> (#[trigger] x@[i]).name@ == y@[i].name@ && x@[i].plain@
                        == y@[i].plain@
            },
            (Err(d), Err(e)) => d == e,
            _ => false,
        },
{
    match table_at(src) {
        None => {},
        Some((ls, next)) => {
            let body = src.skip(next);
            match (first, second) {
                (Ok(x), Ok(y)) => {
                    assert forall|i: int| 0 <= i < x@.len() implies (#[trigger] x@[i]).name@
                        == y@[i].name@ && x@[i].plain@ == y@[i].plain@ by {
                        assert(extracted(body, ls[i].1) == Ok::<Seq<u8>, ArchiveError>(
                            x@[i].plain@,
                        ));
                        assert(y@[i].name@ == ls[i].0);
                    }
                },
                (Err(d), Err(e)) => {
                    let i = choose|i: int| #[trigger] first_failure(body, ls, i, d);
                    let j = choose|j: int| #[trigger] first_failure(body, ls, j, e);
                    if i < j {
                        assert(extracted(body, ls[i].1) is Ok);
                    } else if j < i {
                        assert(extracted(body, ls[j].1) is Ok);
                    }
                },
                (Ok(x), Err(e)) => {
                    let j = choose|j: int| #[trigger] first_failure(body, ls, j, e);
                    assert(extracted(body, ls[j].1) == Ok::<Seq<u8>, ArchiveError>(x@[j].plain@));
                },
                (Err(d), Ok(y)) => {
                    let i = choose|i: int| #[trigger] first_failure(body, ls, i, d);
                    assert(extracted(body, ls[i].1) == Ok::<Seq<u8>, ArchiveError>(y@[i].plain@));
                },
            }
        },
    }
}

} // verus!
