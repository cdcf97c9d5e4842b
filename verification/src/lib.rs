//! An embedded, single-file, page-oriented key-value store with
//! copy-on-write transactions, double-buffered checksummed meta pages,
//! and a free-page allocator with transaction-aware reuse deferral.
//!
//! The root bucket's committed contents live in a single leaf page:
//! the encoded entries of one commit must fit in one page behind its
//! header, and a commit whose payload does not fit is refused with
//! [`Error::PayloadTooLarge`]. Branch nodes, cursors, nested buckets
//! and multi-page overflow runs are not provided.

use vstd::prelude::*;

mod bytes_codec;
pub mod page;
pub mod meta;
pub mod freelist;
pub mod node;
pub mod bucket;
pub mod db;

verus! {

/// Errors surfaced by the store.
#[derive(Debug, Clone, Copy, PartialEq, Eq, Structural)]
pub enum Error {
    /// Neither meta slot holds a valid record: the file is corrupt.
    NoValidMeta,
    /// A valid meta records a pagesize other than the configured one.
    PagesizeMismatch,
    /// A payload does not fit in the page run available for it.
    PayloadTooLarge,
    /// A write was attempted through a read-only transaction.
    ReadOnlyTx,
    /// A write transaction is already active; only one may exist at a
    /// time.
    WriterActive,
    /// The file image is structurally unusable: wrong page sizes, page
    /// references out of range, or undecodable page payloads.
    BadImage,
}

} // verus!
