//! A flat, named-entry archive of MessagePack documents.
//!
//! An archive is a header table followed by a body. The body is the
//! concatenation of the stored entries; the table maps each entry name to the
//! byte range it occupies in the body. A stored entry is either the plain
//! encoding of a document, or a compression envelope: an extension value that
//! carries the length of the plain encoding and its LZ4 block.
pub mod error;
pub mod token;
pub mod envelope;
pub mod archive;
pub mod header;
pub mod value;
pub mod driver;
