//! The archive in memory: the header table and the body, how packing lays
//! entries out, and how unpacking finds them again.
use crate::envelope::{
    bytes_of, is_envelope_of, lemma_seal_then_open, looks_wrapped, open, opened, seal,
    stored_bound, wraps, LARGEST_INPUT,
};
use crate::error::ArchiveError;
use vstd::prelude::*;
use vstd::slice::{slice_subrange, slice_to_vec};

verus! {

/// Where an entry lies in the body: `length` bytes from `offset`, counted
/// from the first byte behind the header table.
#[derive(Clone, Copy, Debug, PartialEq, Eq, Structural)]
pub struct HeaderEntry {
    pub offset: u32,
    pub length: u32,
}

impl HeaderEntry {
    /// The first position behind the entry.
    pub open spec fn end(self) -> int {
        self.offset + self.length
    }
}

/// One line of the header table.
pub struct Record {
    pub name: String,
    pub entry: HeaderEntry,
}

/// A document on its way into an archive or out of one: its name and its
/// plain encoding.
pub struct Document {
    pub name: String,
    pub plain: Vec<u8>,
}

/// A header table and the body that it addresses.
pub struct Archive {
    pub table: Vec<Record>,
    pub body: Vec<u8>,
}

/// Something that carries a name: a line of a table, or a document.
pub trait Named {
    /// The name that it carries.
    spec fn label(&self) -> Seq<char>;
}

impl Named for Record {
    open spec fn label(&self) -> Seq<char> {
        self.name@
    }
}

impl Named for Document {
    open spec fn label(&self) -> Seq<char> {
        self.name@
    }
}

/// No two of them carry the same name.
pub open spec fn names_distinct<T: Named>(t: Seq<T>) -> bool {
    forall|i: int, j: int|
        0 <= i < j < t.len() ==> (#[trigger] t[i]).label() != (#[trigger] t[j]).label()
}

/// Something that addresses a range of the body: a line of a table, in
/// memory or as it is read from a file.
pub trait Ranged {
    /// The range that it addresses.
    spec fn range(&self) -> HeaderEntry;
}

impl Ranged for Record {
    open spec fn range(&self) -> HeaderEntry {
        self.entry
    }
}

/// Every range ends inside a body of `body_len` bytes.
pub open spec fn in_body<T: Ranged>(t: Seq<T>, body_len: int) -> bool {
    forall|i: int| 0 <= i < t.len() ==> (#[trigger] t[i]).range().end() <= body_len
}

/// The ranges follow each other in table order without overlapping.
pub open spec fn ordered<T: Ranged>(t: Seq<T>) -> bool {
    forall|i: int, j: int|
        0 <= i < j < t.len() ==> (#[trigger] t[i]).range().end() <= (#[trigger] t[j]).range().offset
}

/// The ranges tile a body of `body_len` bytes: the first starts at 0, each
/// starts where the one before it ends, and the last ends with the body.
pub open spec fn contiguous<T: Ranged>(t: Seq<T>, body_len: int) -> bool {
    if t.len() == 0 {
        body_len == 0
    } else {
        &&& t[0].range().offset == 0
        &&& forall|i: int|
            0 <= i < t.len() - 1 ==> (#[trigger] t[i]).range().end() == t[i + 1].range().offset
        &&& t.last().range().end() == body_len
    }
}

/// Some line of the table is named `name`.
pub open spec fn has_name(t: Seq<Record>, name: Seq<char>) -> bool {
    exists|i: int| 0 <= i < t.len() && (#[trigger] t[i]).name@ == name
}

/// Line `i` is the first line of the table that is named `name`.
pub open spec fn first_named(t: Seq<Record>, name: Seq<char>, i: int) -> bool {
    &&& 0 <= i < t.len()
    &&& t[i].name@ == name
    &&& forall|j: int| 0 <= j < i ==> (#[trigger] t[j]).name@ != name
}

/// The table after `r` was recorded: the first line of the same name
/// leaves, and `r` becomes the last line.
pub open spec fn replaced(t: Seq<Record>, r: Record) -> Seq<Record> {
    if has_name(t, r.name@) {
        let i = choose|i: int| #[trigger] first_named(t, r.name@, i);
        t.remove(i).push(r)
    } else {
        t.push(r)
    }
}

/// The bytes that `e` addresses in `body`.
pub open spec fn stored_at(body: Seq<u8>, e: HeaderEntry) -> Seq<u8>
    recommends
        e.end() <= body.len(),
{
    body.subrange(e.offset as int, e.end())
}

/// What unpacking finds for the entry `e`: `OutOfRange` where the range
/// leaves the body, else the opened bytes of the range.
pub open spec fn extracted(body: Seq<u8>, e: HeaderEntry) -> Result<Seq<u8>, ArchiveError> {
    if e.end() <= body.len() {
        opened(stored_at(body, e))
    } else {
        Err(ArchiveError::OutOfRange)
    }
}

/// The range `e` of `body` holds `plain` as packing stores it: in an
/// envelope where one is due, else as it is.
pub open spec fn holds(body: Seq<u8>, e: HeaderEntry, plain: Seq<u8>, compress: bool) -> bool {
    &&& e.end() <= body.len()
    &&& if wraps(plain.len(), compress) {
        is_envelope_of(stored_at(body, e), plain)
    } else {
        stored_at(body, e) == plain
    }
}

/// No two of the first `n` documents carry the same name.
pub open spec fn docs_distinct(docs: Seq<Document>, n: int) -> bool {
    forall|i: int, j: int|
        0 <= i < j < n ==> (#[trigger] docs[i]).name@ != (#[trigger] docs[j]).name@
}

/// The first `n` lines of `a` are the first `n` documents, in their order,
/// each stored as packing stores it.
pub open spec fn packed_prefix(a: Archive, docs: Seq<Document>, n: int, compress: bool) -> bool {
    &&& a.table@.len() == n
    &&& contiguous(a.table@, a.body@.len() as int)
    &&& forall|i: int|
        0 <= i < n ==> {
            &&& (#[trigger] a.table@[i]).name@ == docs[i].name@
            &&& holds(a.body@, a.table@[i].entry, docs[i].plain@, compress)
        }
}

impl Archive {
    /// The table's names are unique, its ranges lie inside the body in table
    /// order without overlapping, and 32 bits address the whole body.
    pub open spec fn wf(&self) -> bool {
        &&& names_distinct(self.table@)
        &&& in_body(self.table@, self.body@.len() as int)
        &&& ordered(self.table@)
        &&& self.body@.len() <= u32::MAX
    }

    /// An archive without entries.
    pub fn new() -> (a: Archive)
        ensures
            a.wf(),
            a.table@.len() == 0,
            a.body@.len() == 0,
    {
        Archive { table: Vec::new(), body: Vec::new() }
    }

    /// The first line of the table that is named `name`, if there is one.
    pub fn find(&self, name: &String) -> (r: Option<usize>)
        ensures
            match r {
                Some(i) => first_named(self.table@, name@, i as int),
                None => !has_name(self.table@, name@),
            },
    {
        let mut i: usize = 0;
        while i < self.table.len()
            invariant
                i <= self.table@.len(),
                forall|k: int| 0 <= k < i ==> (#[trigger] self.table@[k]).name@ != name@,
            decreases self.table@.len() - i,
        {
            if self.table[i].name == *name {
                return Some(i);
            }
            i += 1;
        }
        None
    }

    /// Appends `stored` to the body and records its range under `name`. An
    /// earlier line of that name leaves the table; its bytes stay in the
    /// body, unaddressed. A well-formed archive stays well-formed.
    ///
    /// Fails with `TooLarge`, changing nothing, exactly where the body would
    /// outgrow a 32-bit offset.
    pub fn append(&mut self, name: String, stored: &[u8]) -> (r: Result<(), ArchiveError>)
        ensures
            old(self).wf() ==> final(self).wf(),
            r is Err <==> old(self).body@.len() + stored@.len() > u32::MAX,
            r matches Err(e) ==> e == ArchiveError::TooLarge && *final(self) == *old(self),
            r is Ok ==> {
                &&& final(self).body@ == old(self).body@ + stored@
                &&& final(self).table@ == replaced(
                    old(self).table@,
                    (Record {
                        name,
                        entry: HeaderEntry {
                            offset: old(self).body@.len() as u32,
                            length: stored@.len() as u32,
                        },
                    }),
                )
            },
            r is Ok && !has_name(old(self).table@, name@) && contiguous(
                old(self).table@,
                old(self).body@.len() as int,
            ) ==> contiguous(final(self).table@, final(self).body@.len() as int),
    {
        if self.body.len() > u32::MAX as usize || stored.len() > u32::MAX as usize
            - self.body.len() {
            return Err(ArchiveError::TooLarge);
        }
        let entry = HeaderEntry { offset: self.body.len() as u32, length: stored.len() as u32 };
        let ghost before = self.table@;
        let ghost rec = Record { name, entry };
        match self.find(&name) {
            Some(i) => {
                proof {
                    let c = choose|c: int| #[trigger] first_named(before, name@, c);
                    assert(first_named(before, name@, i as int));
                    assert(c == i);
                }
                self.table.remove(i);
            },
            None => {},
        }
        self.table.push(Record { name, entry });
        self.body.extend_from_slice(stored);
        assert(self.table@ == replaced(before, rec));
        Ok(())
    }

    /// Seals one document and appends it: an envelope where compression is
    /// on and the plain encoding is longer than the threshold, else the
    /// plain encoding itself.
    ///
    /// `Compression` where the compressor fails; `TooLarge` where the body
    /// would outgrow a 32-bit offset. With compression off, or at most 64
    /// bytes, it succeeds exactly where the body has room; a longer document
    /// of at most `LARGEST_INPUT` bytes is added wherever the body has room
    /// for the longest envelope it may take.
    pub fn add(&mut self, doc: Document, compress: bool) -> (r: Result<(), ArchiveError>)
        ensures
            old(self).wf() ==> final(self).wf(),
            r matches Err(e) ==> *final(self) == *old(self) && (e == ArchiveError::TooLarge || (e
                == ArchiveError::Compression && wraps(doc.plain@.len(), compress))),
            !wraps(doc.plain@.len(), compress) ==> (r is Err <==> old(self).body@.len()
                + doc.plain@.len() > u32::MAX),
            doc.plain@.len() <= LARGEST_INPUT && old(self).body@.len() + stored_bound(
                doc.plain@.len(),
                compress,
            ) <= u32::MAX ==> r is Ok,
            r is Ok ==> final(self).body@.len() <= old(self).body@.len() + stored_bound(
                doc.plain@.len(),
                compress,
            ),
            r is Ok ==> {
                &&& final(self).table@.len() > 0
                &&& final(self).table@ == replaced(old(self).table@, final(self).table@.last())
                &&& final(self).table@.last().name@ == doc.name@
                &&& final(self).table@.last().entry.offset == old(self).body@.len()
                &&& final(self).table@.last().entry.end() == final(self).body@.len()
                &&& final(self).body@.subrange(0, old(self).body@.len() as int) == old(self).body@
                &&& holds(final(self).body@, final(self).table@.last().entry, doc.plain@, compress)
            },
            r is Ok && !has_name(old(self).table@, doc.name@) && contiguous(
                old(self).table@,
                old(self).body@.len() as int,
            ) ==> contiguous(final(self).table@, final(self).body@.len() as int),
    {
        let ghost plain = doc.plain@;
        let ghost body0 = self.body@;
        let Document { name, plain: bytes } = doc;
        match seal(bytes, compress) {
            Err(e) => Err(e),
            Ok(stored) => {
                let r = self.append(name, stored.as_slice());
                proof {
                    if r is Ok {
                        let e = self.table@.last().entry;
                        assert(stored_at(self.body@, e) == stored@);
                        assert(self.body@.subrange(0, body0.len() as int) == body0);
                    }
                }
                r
            },
        }
    }

    /// What one entry holds: the plain encoding behind the range `e`.
    ///
    /// `OutOfRange` where the range leaves the body; `Decode` or
    /// `Compression` where an envelope in it cannot be opened.
    pub fn extract(&self, e: HeaderEntry) -> (r: Result<Vec<u8>, ArchiveError>)
        ensures
            bytes_of(r) == extracted(self.body@, e),
    {
        let len = self.body.len();
        if e.offset as usize > len || e.length as usize > len - e.offset as usize {
            return Err(ArchiveError::OutOfRange);
        }
        let from: usize = e.offset as usize;
        let to: usize = from + e.length as usize;
        let stored = slice_subrange(self.body.as_slice(), from, to);
        open(stored)
    }
}

/// Document `i` is the last of the first `n` documents that carries its
/// name.
pub open spec fn last_of_name(docs: Seq<Document>, n: int, i: int) -> bool {
    &&& 0 <= i < n
    &&& forall|j: int| i < j < n ==> (#[trigger] docs[j]).name@ != docs[i].name@
}

/// Line `k` of the table is named like `doc`, and its range of `body` holds
/// `doc` as packing stores it.
pub open spec fn is_line_of<T: Named + Ranged>(
    t: Seq<T>,
    body: Seq<u8>,
    k: int,
    doc: Document,
    compress: bool,
) -> bool {
    &&& 0 <= k < t.len()
    &&& t[k].label() == doc.name@
    &&& holds(body, t[k].range(), doc.plain@, compress)
}

/// Some line of the table is named like `doc` and holds it.
pub open spec fn has_line_of<T: Named + Ranged>(
    t: Seq<T>,
    body: Seq<u8>,
    doc: Document,
    compress: bool,
) -> bool {
    exists|k: int| #[trigger] is_line_of(t, body, k, doc, compress)
}

/// Of the first `n` documents, each that is the last of its name has its
/// line in the table.
pub open spec fn keeps_last<T: Named + Ranged>(
    t: Seq<T>,
    body: Seq<u8>,
    docs: Seq<Document>,
    n: int,
    compress: bool,
) -> bool {
    forall|i: int| #[trigger]
        last_of_name(docs, n, i) ==> has_line_of(t, body, docs[i], compress)
}

proof fn lemma_line_survives(
    before: Archive,
    after: Archive,
    k: int,
    doc: Document,
    compress: bool,
)
    requires
        is_line_of(before.table@, before.body@, k, doc, compress),
        after.table@.len() > 0,
        after.table@ == replaced(before.table@, after.table@.last()),
        after.table@.last().name@ != doc.name@,
        before.body@.len() <= after.body@.len(),
        after.body@.subrange(0, before.body@.len() as int) == before.body@,
    ensures
        has_line_of(after.table@, after.body@, doc, compress),
{
    let t = before.table@;
    let r = after.table@.last();
    let e = t[k].entry;
    assert(stored_at(after.body@, e) == stored_at(
        after.body@.subrange(0, before.body@.len() as int),
        e,
    ));
    if has_name(t, r.name@) {
        let w = choose|w: int| 0 <= w < t.len() && (#[trigger] t[w]).name@ == r.name@;
        lemma_first_named(t, r.name@, w);
        let c = choose|c: int| #[trigger] first_named(t, r.name@, c);
        if k < c {
            assert(after.table@[k] == t[k]);
            assert(is_line_of(after.table@, after.body@, k, doc, compress));
        } else {
            assert(after.table@[k - 1] == t[k]);
            assert(is_line_of(after.table@, after.body@, k - 1, doc, compress));
        }
    } else {
        assert(after.table@[k] == t[k]);
        assert(is_line_of(after.table@, after.body@, k, doc, compress));
    }
}

proof fn lemma_first_named(t: Seq<Record>, name: Seq<char>, w: int)
    requires
        0 <= w < t.len(),
        t[w].name@ == name,
    ensures
        exists|i: int| #[trigger] first_named(t, name, i),
    decreases w,
{
    if exists|j: int| 0 <= j < w && (#[trigger] t[j]).name@ == name {
        let j = choose|j: int| 0 <= j < w && (#[trigger] t[j]).name@ == name;
        lemma_first_named(t, name, j);
    } else {
        assert(first_named(t, name, w));
    }
}

/// The most bytes that the first `n` documents take in the body together;
/// where none of them is wrapped, exactly what they take.
pub open spec fn stored_total(docs: Seq<Document>, n: int, compress: bool) -> int
    decreases n,
{
    if n <= 0 {
        0
    } else {
        stored_total(docs, n - 1, compress) + stored_bound(docs[n - 1].plain@.len(), compress)
    }
}

/// None of the first `n` documents is stored in an envelope.
pub open spec fn none_wrapped(docs: Seq<Document>, n: int, compress: bool) -> bool {
    forall|i: int| 0 <= i < n ==> !wraps((#[trigger] docs[i]).plain@.len(), compress)
}

/// The compressor takes each document that is to be wrapped.
pub open spec fn compressible(docs: Seq<Document>, compress: bool) -> bool {
    forall|i: int|
        0 <= i < docs.len() && wraps((#[trigger] docs[i]).plain@.len(), compress)
            ==> docs[i].plain@.len() <= LARGEST_INPUT
}

/// Some range of the table holds position `k` of the body.
pub open spec fn covered<T: Ranged>(t: Seq<T>, k: int) -> bool {
    exists|i: int|
        0 <= i < t.len() && (#[trigger] t[i]).range().offset <= k < t[i].range().end()
}

proof fn lemma_stored_total_grows(docs: Seq<Document>, m: int, n: int, compress: bool)
    requires
        0 <= m <= n,
    ensures
        stored_total(docs, m, compress) <= stored_total(docs, n, compress),
    decreases n - m,
{
    if m < n {
        lemma_stored_total_grows(docs, m, n - 1, compress);
    }
}

proof fn lemma_contiguous_ordered<T: Ranged>(t: Seq<T>, body_len: int, i: int, j: int)
    requires
        contiguous(t, body_len),
        0 <= i < j < t.len(),
    ensures
        t[i].range().end() <= t[j].range().offset,
    decreases j - i,
{
    if i + 1 < j {
        lemma_contiguous_ordered(t, body_len, i, j - 1);
        assert(t[j - 1].range().end() == t[j - 1 + 1].range().offset);
    }
}

proof fn lemma_contiguous_in_body<T: Ranged>(t: Seq<T>, body_len: int, i: int)
    requires
        contiguous(t, body_len),
        0 <= i < t.len(),
    ensures
        t[i].range().end() <= body_len,
{
    if i < t.len() - 1 {
        lemma_contiguous_ordered(t, body_len, i, t.len() - 1);
    }
}

proof fn lemma_contiguous_covers<T: Ranged>(t: Seq<T>, body_len: int, k: int, i: int)
    requires
        contiguous(t, body_len),
        0 <= i < t.len(),
        t[i].range().offset <= k < body_len,
    ensures
        covered(t, k),
    decreases t.len() - i,
{
    if k >= t[i].range().end() {
        assert(t[i].range().end() == t[i + 1].range().offset);
        lemma_contiguous_covers(t, body_len, k, i + 1);
    }
}

/// Ranges that tile the body do not overlap, stay inside the body, and
/// leave no byte of it out: every position of the body lies in one of them.
pub proof fn lemma_tiling<T: Ranged>(t: Seq<T>, body_len: int)
    requires
        contiguous(t, body_len),
    ensures
        ordered(t),
        in_body(t, body_len),
        forall|k: int| 0 <= k < body_len ==> #[trigger] covered(t, k),
{
    assert forall|i: int, j: int| 0 <= i < j < t.len() implies (#[trigger] t[i]).range().end() <= (
    #[trigger] t[j]).range().offset by {
        lemma_contiguous_ordered(t, body_len, i, j);
    }
    assert forall|i: int| 0 <= i < t.len() implies (#[trigger] t[i]).range().end() <= body_len by {
        lemma_contiguous_in_body(t, body_len, i);
    }
    assert forall|k: int| 0 <= k < body_len implies #[trigger] covered(t, k) by {
        lemma_contiguous_covers(t, body_len, k, 0);
    }
}

/// What packing stored, unpacking finds: the range that holds a document
/// opens to the document's plain encoding, with compression on or off. A
/// plain encoding that was stored as it is must not itself start as an
/// extension value of type 99, which cannot be told from an envelope.
pub proof fn lemma_packed_entry_opens(
    body: Seq<u8>,
    e: HeaderEntry,
    plain: Seq<u8>,
    compress: bool,
)
    requires
        holds(body, e, plain, compress),
        !wraps(plain.len(), compress) ==> !looks_wrapped(plain),
    ensures
        extracted(body, e) == Ok::<Seq<u8>, ArchiveError>(plain),
{
    lemma_seal_then_open(plain, compress, stored_at(body, e));
}

/// Packs the documents in their order into a new archive.
///
/// Every document that is the last of its name has its line in the table.
/// Where no two documents share a name, line `i` of the table is document
/// `i` and the ranges tile the body. Packing succeeds wherever the
/// compressor takes each document that is to be wrapped and the body has
/// room for the longest envelopes; where no document is wrapped, it fails
/// exactly where the plain encodings together outgrow a 32-bit offset.
pub fn pack(docs: &Vec<Document>, compress: bool) -> (r: Result<Archive, ArchiveError>)
    ensures
        match r {
            Ok(a) => {
                &&& a.wf()
                &&& keeps_last(a.table@, a.body@, docs@, docs@.len() as int, compress)
                &&& docs_distinct(docs@, docs@.len() as int) ==> packed_prefix(
                    a,
                    docs@,
                    docs@.len() as int,
                    compress,
                )
            },
            Err(e) => e == ArchiveError::TooLarge || (e == ArchiveError::Compression && compress),
        },
        compressible(docs@, compress) && stored_total(docs@, docs@.len() as int, compress)
            <= u32::MAX ==> r is Ok,
        none_wrapped(docs@, docs@.len() as int, compress) ==> (r is Err <==> stored_total(
            docs@,
            docs@.len() as int,
            compress,
        ) > u32::MAX),
{
    let mut a = Archive::new();
    let mut i: usize = 0;
    while i < docs.len()
        invariant
            i <= docs@.len(),
            a.wf(),
            keeps_last(a.table@, a.body@, docs@, i as int, compress),
            docs_distinct(docs@, i as int) ==> packed_prefix(a, docs@, i as int, compress),
            a.body@.len() <= stored_total(docs@, i as int, compress),
            none_wrapped(docs@, i as int, compress) ==> a.body@.len() == stored_total(
                docs@,
                i as int,
                compress,
            ),
        decreases docs@.len() - i,
    {
        let ghost before = a;
        let doc = Document {
            name: docs[i].name.clone(),
            plain: slice_to_vec(docs[i].plain.as_slice()),
        };
        match a.add(doc, compress) {
            Err(e) => {
                proof {
                    lemma_stored_total_grows(docs@, i + 1, docs@.len() as int, compress);
                    assert(stored_total(docs@, i + 1, compress) == stored_total(
                        docs@,
                        i as int,
                        compress,
                    ) + stored_bound(docs@[i as int].plain@.len(), compress));
                }
                return Err(e);
            },
            Ok(()) => {},
        }
        proof {
            assert forall|d: int| #[trigger] last_of_name(docs@, i + 1, d) implies has_line_of(a.table@, a.body@,
                docs@[d],
                compress,
            ) by {
                if d < i {
                    assert(docs@[i as int].name@ != docs@[d].name@);
                    assert(last_of_name(docs@, i as int, d));
                    let k = choose|k: int| #[trigger] is_line_of(before.table@, before.body@, k, docs@[d], compress);
                    lemma_line_survives(before, a, k, docs@[d], compress);
                } else {
                    assert(is_line_of(a.table@, a.body@, a.table@.len() - 1, docs@[d], compress));
                }
            }
            assert(stored_total(docs@, i + 1, compress) == stored_total(docs@, i as int, compress)
                + stored_bound(docs@[i as int].plain@.len(), compress));
            if none_wrapped(docs@, i + 1, compress) {
                assert(!wraps(docs@[i as int].plain@.len(), compress));
                assert(none_wrapped(docs@, i as int, compress));
                assert(stored_at(a.body@, a.table@.last().entry).len() == docs@[i as int].plain@.len());
            }
            if docs_distinct(docs@, i + 1) {
                assert(docs_distinct(docs@, i as int));
                assert(!has_name(before.table@, docs@[i as int].name@)) by {
                    if has_name(before.table@, docs@[i as int].name@) {
                        let c = choose|c: int|
                            0 <= c < before.table@.len() && (#[trigger] before.table@[c]).name@
                                == docs@[i as int].name@;
                        assert(docs@[c].name@ == docs@[i as int].name@);
                    }
                }
                assert(a.table@ == before.table@.push(a.table@.last()));
                assert forall|j: int| 0 <= j < i + 1 implies {
                    &&& (#[trigger] a.table@[j]).name@ == docs@[j].name@
                    &&& holds(a.body@, a.table@[j].entry, docs@[j].plain@, compress)
                } by {
                    if j < i {
                        assert(a.table@[j] == before.table@[j]);
                        let e = before.table@[j].entry;
                        assert(stored_at(a.body@, e) == stored_at(
                            a.body@.subrange(0, before.body@.len() as int),
                            e,
                        ));
                    }
                }
            }
        }
        i += 1;
    }
    Ok(a)
}

/// `doc` is what unpacking finds for line `r` of the table.
pub open spec fn found(body: Seq<u8>, r: Record, doc: Document) -> bool {
    &&& doc.name@ == r.name@
    &&& extracted(body, r.entry) == Ok::<Seq<u8>, ArchiveError>(doc.plain@)
}

/// Line `r` of the table cannot be extracted, for the reason `e`.
pub open spec fn fails(body: Seq<u8>, r: Record, e: ArchiveError) -> bool {
    extracted(body, r.entry) == Err::<Seq<u8>, ArchiveError>(e)
}

impl Archive {
    /// Extracts every entry, in table order.
    ///
    /// Fails with the error of the first entry that cannot be extracted.
    pub fn unpack(&self) -> (r: Result<Vec<Document>, ArchiveError>)
        ensures
            match r {
                Ok(docs) => {
                    &&& docs@.len() == self.table@.len()
                    &&& forall|i: int|
                        0 <= i < docs@.len() ==> found(
                            self.body@,
                            self.table@[i],
                            #[trigger] docs@[i],
                        )
                },
                Err(e) => exists|i: int|
                    {
                        &&& 0 <= i < self.table@.len()
                        &&& #[trigger] fails(self.body@, self.table@[i], e)
                        &&& forall|j: int|
                            0 <= j < i ==> extracted(
                                self.body@,
                                (#[trigger] self.table@[j]).entry,
                            ) is Ok
                    },
            },
    {
        let mut docs: Vec<Document> = Vec::new();
        let mut i: usize = 0;
        while i < self.table.len()
            invariant
                i <= self.table@.len(),
                docs@.len() == i,
                forall|k: int|
                    0 <= k < i ==> found(self.body@, self.table@[k], #[trigger] docs@[k]),
            decreases self.table@.len() - i,
        {
            let ghost so_far = docs@;
            match self.extract(self.table[i].entry) {
                Err(e) => {
                    proof {
                        assert(fails(self.body@, self.table@[i as int], e));
                        assert forall|j: int| 0 <= j < i implies extracted(
                            self.body@,
                            (#[trigger] self.table@[j]).entry,
                        ) is Ok by {
                            assert(found(self.body@, self.table@[j], docs@[j]));
                        }
                    }
                    return Err(e);
                },
                Ok(plain) => {
                    let doc = Document { name: self.table[i].name.clone(), plain };
                    assert(found(self.body@, self.table@[i as int], doc));
                    docs.push(doc);
                    assert forall|k: int| 0 <= k < i + 1 implies found(
                        self.body@,
                        self.table@[k],
                        #[trigger] docs@[k],
                    ) by {
                        if k < i {
                            assert(docs@[k] == so_far[k]);
                        }
                    }
                },
            }
            i += 1;
        }
        Ok(docs)
    }
}

} // verus!
