//! Fixed-layout page headers: every page of the file starts with a
//! 25-byte header giving its id, type, element count and overflow run
//! length; typed payloads follow the header.

use vstd::prelude::*;
use vstd::bytes::{spec_u64_to_le_bytes, spec_u64_from_le_bytes};
use crate::bytes_codec::{get_u64, set_u64};

verus! {

/// Page index inside the file; byte offset = id * pagesize.
pub type PageID = u64;

/// Page type tag: a meta record page.
pub const PAGE_TYPE_META: u8 = 1;

/// Page type tag: the free-page list.
pub const PAGE_TYPE_FREELIST: u8 = 2;

/// Page type tag: a branch node of the tree.
pub const PAGE_TYPE_BRANCH: u8 = 3;

/// Page type tag: a leaf node of the tree.
pub const PAGE_TYPE_LEAF: u8 = 4;

/// Bytes taken by the page header at the front of every page.
pub const PAGE_HDR_SIZE: usize = 25;

/// The decoded page header. `overflow` is the number of additional
/// contiguous pages extending this logical page; only the first page of
/// a run carries a header.
#[derive(Clone, Copy, Debug, PartialEq, Eq, Structural)]
pub struct PageHdr {
    pub id: PageID,
    pub page_type: u8,
    pub count: u64,
    pub overflow: u64,
}

/// What the leading bytes of a page decode to as a header.
pub open spec fn parse_hdr(p: Seq<u8>) -> PageHdr
    recommends
        p.len() >= PAGE_HDR_SIZE,
{
    PageHdr {
        id: spec_u64_from_le_bytes(p.subrange(0, 8)),
        page_type: p[8],
        count: spec_u64_from_le_bytes(p.subrange(9, 17)),
        overflow: spec_u64_from_le_bytes(p.subrange(17, 25)),
    }
}

/// Decode the header at the front of `page`.
pub fn read_hdr(page: &Vec<u8>) -> (h: PageHdr)
    requires
        page@.len() >= PAGE_HDR_SIZE,
    ensures
        h == parse_hdr(page@),
{
    let id = get_u64(page, 0);
    let page_type = page[8];
    let count = get_u64(page, 9);
    let overflow = get_u64(page, 17);
    PageHdr { id, page_type, count, overflow }
}

/// Encode `h` into the leading bytes of `page`, leaving the payload
/// region untouched.
pub fn write_hdr(page: &mut Vec<u8>, h: PageHdr)
    requires
        old(page)@.len() >= PAGE_HDR_SIZE,
    ensures
        final(page)@.len() == old(page)@.len(),
        parse_hdr(final(page)@) == h,
        forall|j: int| PAGE_HDR_SIZE <= j < old(page)@.len() ==> final(page)@[j] == old(page)@[j],
{
    set_u64(page, 0, h.id);
    page.set(8, h.page_type);
    set_u64(page, 9, h.count);
    set_u64(page, 17, h.overflow);
    proof {
        vstd::bytes::lemma_auto_spec_u64_to_from_le_bytes();
        assert(page@.subrange(0, 8) =~= spec_u64_to_le_bytes(h.id));
        assert(page@.subrange(9, 17) =~= spec_u64_to_le_bytes(h.count));
        assert(page@.subrange(17, 25) =~= spec_u64_to_le_bytes(h.overflow));
    }
}

} // verus!
