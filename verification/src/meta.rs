//! The double-buffered meta records: the database's root descriptors.
//! Two fixed slots (pages 0 and 1) hold checksummed copies of the
//! committed state; commit alternates between them, and open selects
//! the valid record with the higher transaction id.

use vstd::prelude::*;
use vstd::bytes::{spec_u64_to_le_bytes, spec_u64_from_le_bytes};
use vstd::bytes::{spec_u32_to_le_bytes, spec_u32_from_le_bytes};
use vstd::bytes::{u64_to_le_bytes, u32_to_le_bytes};
use crate::page::{PageID, PageHdr, PAGE_TYPE_META, PAGE_HDR_SIZE, write_hdr, parse_hdr};
use crate::bytes_codec::{get_u64, get_u32, splice};
use sha3::Digest;

verus! {

/// Magic constant identifying a database file.
pub const MAGIC_VALUE: u32 = 0x00AB_CDEF;

/// On-disk format version.
pub const VERSION: u32 = 1;

/// Bytes of the meta record that are covered by the content hash.
pub const META_FIELDS_SIZE: usize = 60;

/// Bytes of the full meta record, hash included.
pub const META_RECORD_SIZE: usize = 92;

/// Compact descriptor of one tree: the page id of its root and the
/// counter backing auto-incrementing integer keys.
#[derive(Clone, Copy, Debug, Default, PartialEq, Eq, Structural)]
pub struct BucketMeta {
    pub root_page: PageID,
    pub next_int: u64,
}

/// A decoded meta record. `hash` is the SHA3-256 digest of the encoding
/// of all other fields; the record is valid only if it matches.
pub struct Meta {
    pub meta_page: u32,
    pub magic: u32,
    pub version: u32,
    pub pagesize: u64,
    pub root: BucketMeta,
    pub num_pages: u64,
    pub freelist_page: PageID,
    pub tx_id: u64,
    pub hash: Vec<u8>,
}

/// Mathematical image of a meta record.
pub ghost struct MetaView {
    pub meta_page: u32,
    pub magic: u32,
    pub version: u32,
    pub pagesize: u64,
    pub root: BucketMeta,
    pub num_pages: u64,
    pub freelist_page: PageID,
    pub tx_id: u64,
    pub hash: Seq<u8>,
}

impl View for Meta {
    type V = MetaView;

    open spec fn view(&self) -> MetaView {
        MetaView {
            meta_page: self.meta_page,
            magic: self.magic,
            version: self.version,
            pagesize: self.pagesize,
            root: self.root,
            num_pages: self.num_pages,
            freelist_page: self.freelist_page,
            tx_id: self.tx_id,
            hash: self.hash@,
        }
    }
}

/// The hashed encoding of a meta record's fields, in file order.
pub open spec fn meta_fields_bytes(m: MetaView) -> Seq<u8> {
    spec_u32_to_le_bytes(m.meta_page) + spec_u32_to_le_bytes(m.magic) + spec_u32_to_le_bytes(
        m.version,
    ) + spec_u64_to_le_bytes(m.pagesize) + spec_u64_to_le_bytes(m.root.root_page)
        + spec_u64_to_le_bytes(m.root.next_int) + spec_u64_to_le_bytes(m.num_pages)
        + spec_u64_to_le_bytes(m.freelist_page) + spec_u64_to_le_bytes(m.tx_id)
}

/// What the SHA3-256 digest of a byte sequence is.
pub uninterp spec fn hash_of(data: Seq<u8>) -> Seq<u8>;

/// Relies on sha3::Sha3_256 through the sha3::Digest trait: the digest
/// is 32 bytes long and is a function of the input bytes alone.
#[verifier::external_body]
fn sha3_256(data: &Vec<u8>) -> (r: Vec<u8>)
    ensures
        r@ == hash_of(data@),
        r@.len() == 32,
{
    sha3::Sha3_256::digest(data.as_slice()).to_vec()
}

/// A meta record is valid when its stored hash is the digest of its
/// other fields.
pub open spec fn spec_valid(m: MetaView) -> bool {
    m.hash == hash_of(meta_fields_bytes(m)) && m.hash.len() == 32
}

impl Meta {
    /// The hashed encoding of this record's fields.
    pub fn bytes(&self) -> (r: Vec<u8>)
        ensures
            r@ == meta_fields_bytes(self@),
    {
        let mut r = u32_to_le_bytes(self.meta_page);
        let mut b1 = u32_to_le_bytes(self.magic);
        let mut b2 = u32_to_le_bytes(self.version);
        let mut b3 = u64_to_le_bytes(self.pagesize);
        let mut b4 = u64_to_le_bytes(self.root.root_page);
        let mut b5 = u64_to_le_bytes(self.root.next_int);
        let mut b6 = u64_to_le_bytes(self.num_pages);
        let mut b7 = u64_to_le_bytes(self.freelist_page);
        let mut b8 = u64_to_le_bytes(self.tx_id);
        r.append(&mut b1);
        r.append(&mut b2);
        r.append(&mut b3);
        r.append(&mut b4);
        r.append(&mut b5);
        r.append(&mut b6);
        r.append(&mut b7);
        r.append(&mut b8);
        proof {
            assert(r@ =~= meta_fields_bytes(self@));
        }
        r
    }

    /// Recompute the digest over this record's fields.
    pub fn hash_self(&self) -> (r: Vec<u8>)
        ensures
            r@ == hash_of(meta_fields_bytes(self@)),
            r@.len() == 32,
    {
        let b = self.bytes();
        sha3_256(&b)
    }

    /// Whether the stored hash matches the recomputed digest.
    pub fn valid(&self) -> (r: bool)
        ensures
            r == spec_valid(self@),
    {
        let h = self.hash_self();
        bytes_eq(&self.hash, &h)
    }

    /// A field-for-field copy of this record.
    pub fn dup(&self) -> (r: Meta)
        ensures
            r@ == self@,
    {
        let mut hash: Vec<u8> = Vec::new();
        let mut i: usize = 0;
        let n = self.hash.len();
        while i < n
            invariant
                n == self.hash@.len(),
                0 <= i <= n,
                hash@ == self.hash@.subrange(0, i as int),
            decreases n - i,
        {
            hash.push(self.hash[i]);
            proof {
                assert(hash@ =~= self.hash@.subrange(0, i + 1));
            }
            i = i + 1;
        }
        proof {
            assert(hash@ =~= self.hash@);
        }
        Meta {
            meta_page: self.meta_page,
            magic: self.magic,
            version: self.version,
            pagesize: self.pagesize,
            root: self.root,
            num_pages: self.num_pages,
            freelist_page: self.freelist_page,
            tx_id: self.tx_id,
            hash,
        }
    }
}

/// Whether two byte vectors hold the same bytes.
pub fn bytes_eq(a: &Vec<u8>, b: &Vec<u8>) -> (r: bool)
    ensures
        r == (a@ == b@),
{
    if a.len() != b.len() {
        proof {
            assert(a@ != b@);
        }
        return false;
    }
    let n = a.len();
    let mut i: usize = 0;
    while i < n
        invariant
            n == a@.len() == b@.len(),
            0 <= i <= n,
            forall|j: int| 0 <= j < i ==> a@[j] == b@[j],
        decreases n - i,
    {
        if a[i] != b[i] {
            return false;
        }
        i = i + 1;
    }
    proof {
        assert(a@ =~= b@);
    }
    true
}

/// What a page's bytes decode to as a meta record. The record sits
/// directly behind the page header.
pub open spec fn parse_meta(p: Seq<u8>) -> MetaView
    recommends
        p.len() >= PAGE_HDR_SIZE + META_RECORD_SIZE,
{
    MetaView {
        meta_page: spec_u32_from_le_bytes(p.subrange(25, 29)),
        magic: spec_u32_from_le_bytes(p.subrange(29, 33)),
        version: spec_u32_from_le_bytes(p.subrange(33, 37)),
        pagesize: spec_u64_from_le_bytes(p.subrange(37, 45)),
        root: BucketMeta {
            root_page: spec_u64_from_le_bytes(p.subrange(45, 53)),
            next_int: spec_u64_from_le_bytes(p.subrange(53, 61)),
        },
        num_pages: spec_u64_from_le_bytes(p.subrange(61, 69)),
        freelist_page: spec_u64_from_le_bytes(p.subrange(69, 77)),
        tx_id: spec_u64_from_le_bytes(p.subrange(77, 85)),
        hash: p.subrange(85, 117),
    }
}

/// Decode the meta record stored on `page`.
pub fn read_meta_page(page: &Vec<u8>) -> (m: Meta)
    requires
        page@.len() >= PAGE_HDR_SIZE + META_RECORD_SIZE,
    ensures
        m@ == parse_meta(page@),
{
    let meta_page = get_u32(page, 25);
    let magic = get_u32(page, 29);
    let version = get_u32(page, 33);
    let pagesize = get_u64(page, 37);
    let root_page = get_u64(page, 45);
    let next_int = get_u64(page, 53);
    let num_pages = get_u64(page, 61);
    let freelist_page = get_u64(page, 69);
    let tx_id = get_u64(page, 77);
    let mut hash: Vec<u8> = Vec::new();
    let mut i: usize = 85;
    while i < 117
        invariant
            85 <= i <= 117,
            page@.len() >= 117,
            hash@ == page@.subrange(85, i as int),
        decreases 117 - i,
    {
        hash.push(page[i]);
        proof {
            assert(hash@ =~= page@.subrange(85, i + 1));
        }
        i = i + 1;
    }
    Meta {
        meta_page,
        magic,
        version,
        pagesize,
        root: BucketMeta { root_page, next_int },
        num_pages,
        freelist_page,
        tx_id,
        hash,
    }
}

/// Encode `m` onto `page` as a meta page with page id `id`: page
/// header, then the record, then the stored hash.
pub fn write_meta_page(page: &mut Vec<u8>, m: &Meta, id: PageID)
    requires
        old(page)@.len() >= PAGE_HDR_SIZE + META_RECORD_SIZE,
        m@.hash.len() == 32,
    ensures
        final(page)@.len() == old(page)@.len(),
        parse_meta(final(page)@) == m@,
        parse_hdr(final(page)@) == (PageHdr {
            id,
            page_type: PAGE_TYPE_META,
            count: 0,
            overflow: 0,
        }),
{
    write_hdr(
        page,
        PageHdr { id, page_type: PAGE_TYPE_META, count: 0, overflow: 0 },
    );
    let fields = m.bytes();
    proof {
        vstd::bytes::lemma_auto_spec_u64_to_from_le_bytes();
        vstd::bytes::lemma_auto_spec_u32_to_from_le_bytes();
        assert(fields@.len() == META_FIELDS_SIZE);
    }
    splice(page, 25, &fields);
    splice(page, 85, &m.hash);
    proof {
        vstd::bytes::lemma_auto_spec_u64_to_from_le_bytes();
        vstd::bytes::lemma_auto_spec_u32_to_from_le_bytes();
        let p = page@;
        let f = meta_fields_bytes(m@);
        assert(p.subrange(25, 29) =~= spec_u32_to_le_bytes(m@.meta_page));
        assert(p.subrange(29, 33) =~= spec_u32_to_le_bytes(m@.magic));
        assert(p.subrange(33, 37) =~= spec_u32_to_le_bytes(m@.version));
        assert(p.subrange(37, 45) =~= spec_u64_to_le_bytes(m@.pagesize));
        assert(p.subrange(45, 53) =~= spec_u64_to_le_bytes(m@.root.root_page));
        assert(p.subrange(53, 61) =~= spec_u64_to_le_bytes(m@.root.next_int));
        assert(p.subrange(61, 69) =~= spec_u64_to_le_bytes(m@.num_pages));
        assert(p.subrange(69, 77) =~= spec_u64_to_le_bytes(m@.freelist_page));
        assert(p.subrange(77, 85) =~= spec_u64_to_le_bytes(m@.tx_id));
        assert(p.subrange(85, 117) =~= m@.hash);
        assert(p.subrange(0, 8) =~= spec_u64_to_le_bytes(id));
        assert(p.subrange(9, 17) =~= spec_u64_to_le_bytes(0u64));
        assert(p.subrange(17, 25) =~= spec_u64_to_le_bytes(0u64));
    }
}

/// Which of two candidate records wins, given a validity flag for
/// each: exactly the valid record with the strictly higher
/// transaction id; on a tie or when only the second is valid, the
/// second; none when neither is valid.
pub open spec fn spec_select_v(v1: bool, m1: MetaView, v2: bool, m2: MetaView) -> Option<MetaView> {
    if v1 && v2 {
        if m1.tx_id > m2.tx_id {
            Some(m1)
        } else {
            Some(m2)
        }
    } else if v1 {
        Some(m1)
    } else if v2 {
        Some(m2)
    } else {
        None
    }
}

/// Which of the two meta records is authoritative, judging each by its
/// own checksum.
pub open spec fn spec_select(m1: MetaView, m2: MetaView) -> Option<MetaView> {
    spec_select_v(spec_valid(m1), m1, spec_valid(m2), m2)
}

/// A page carries a usable meta record only when its type tag marks it
/// as a meta page and the record's checksum verifies: the tag is
/// validated before the record is interpreted.
pub open spec fn valid_meta_page(p: Seq<u8>) -> bool {
    &&& parse_hdr(p).page_type == PAGE_TYPE_META
    &&& spec_valid(parse_meta(p))
}

/// Which of two meta pages is authoritative, judging each by its type
/// tag and checksum.
pub open spec fn spec_select_pages(p0: Seq<u8>, p1: Seq<u8>) -> Option<MetaView> {
    spec_select_v(valid_meta_page(p0), parse_meta(p0), valid_meta_page(p1), parse_meta(p1))
}

/// Select the winner of two candidate records under the given validity
/// flags, and hold its recorded pagesize against the configured one.
pub fn select_by(v1: bool, m1: &Meta, v2: bool, m2: &Meta, pagesize: u64) -> (r: Result<
    Meta,
    crate::Error,
>)
    ensures
        match r {
            Ok(m) => {
                &&& spec_select_v(v1, m1@, v2, m2@) == Some(m@)
                &&& m@.pagesize == pagesize
            },
            Err(crate::Error::NoValidMeta) => spec_select_v(v1, m1@, v2, m2@) is None,
            Err(crate::Error::PagesizeMismatch) => {
                &&& spec_select_v(v1, m1@, v2, m2@) matches Some(m)
                &&& m.pagesize != pagesize
            },
            Err(_) => false,
        },
{
    if !v1 && !v2 {
        return Err(crate::Error::NoValidMeta);
    }
    let chosen: &Meta = if v1 && v2 {
        if m1.tx_id > m2.tx_id {
            m1
        } else {
            m2
        }
    } else if v1 {
        m1
    } else {
        m2
    };
    if chosen.pagesize != pagesize {
        return Err(crate::Error::PagesizeMismatch);
    }
    Ok(chosen.dup())
}

/// Select the authoritative meta record of the two slots, checking each
/// slot's hash independently and the selected record's pagesize
/// against the configured one.
pub fn select_meta(m1: &Meta, m2: &Meta, pagesize: u64) -> (r: Result<Meta, crate::Error>)
    ensures
        match r {
            Ok(m) => {
                &&& spec_select(m1@, m2@) == Some(m@)
                &&& m@.pagesize == pagesize
            },
            Err(crate::Error::NoValidMeta) => spec_select(m1@, m2@) is None,
            Err(crate::Error::PagesizeMismatch) => {
                &&& spec_select(m1@, m2@) matches Some(m)
                &&& m.pagesize != pagesize
            },
            Err(_) => false,
        },
{
    let v1 = m1.valid();
    let v2 = m2.valid();
    select_by(v1, m1, v2, m2, pagesize)
}

} // verus!
