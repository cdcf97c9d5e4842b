//! The database handle: open options, the initial file image, and the
//! page-image engine with its copy-on-write transactions.

use vstd::prelude::*;
use crate::page::{PageID, PageHdr, PAGE_HDR_SIZE, PAGE_TYPE_META, PAGE_TYPE_FREELIST, PAGE_TYPE_LEAF, parse_hdr, read_hdr, write_hdr};
use crate::meta::{Meta, MetaView, BucketMeta, MAGIC_VALUE, VERSION, META_RECORD_SIZE, parse_meta, read_meta_page, write_meta_page, select_by, spec_valid, spec_select_v, spec_select_pages, valid_meta_page, bytes_eq};
use crate::freelist::{Freelist, run_available};
use crate::node::{KV, entries_view, enc_entries, enc_ids, encode_entries, encode_ids, decode_entries, decode_entries_checked, decode_ids_checked};
use crate::bytes_codec::splice;
use crate::Error;

verus! {

broadcast use vstd::seq_lib::lemma_seq_contains_after_push, vstd::seq_lib::lemma_seq_concat_contains_all_elements;

/// Minimum growth of the file, in bytes, when it must expand.
pub const MIN_ALLOC_SIZE: u64 = 8 * 1024 * 1024;

/// Default number of pages of a newly created database.
pub const DEFAULT_NUM_PAGES: usize = 32;

/// Open-time behaviour switches.
#[derive(Clone, Copy, Debug, PartialEq, Eq, Structural)]
pub struct DBFlags {
    pub strict_mode: bool,
    pub mmap_populate: bool,
    pub direct_writes: bool,
}

/// Relies on page_size::get: the operating system's memory page size
/// for this process; nothing is assumed of the value.
#[verifier::external_body]
fn os_page_size() -> (r: usize) {
    page_size::get()
}

/// Builder for how a database file is created and opened.
pub struct OpenOptions {
    pagesize: u64,
    num_pages: usize,
    flags: DBFlags,
}

impl OpenOptions {
    /// The configured page size.
    pub closed spec fn spec_pagesize(self) -> u64 {
        self.pagesize
    }

    /// The configured initial page count.
    pub closed spec fn spec_num_pages(self) -> int {
        self.num_pages as int
    }

    /// The configured flags.
    pub closed spec fn spec_flags(self) -> DBFlags {
        self.flags
    }

    /// Options with the operating system's page size (raised to the
    /// 1024-byte floor if it is below it) and the default page count.
    pub fn new() -> (r: OpenOptions)
        ensures
            r.spec_pagesize() >= 1024,
            r.spec_num_pages() == DEFAULT_NUM_PAGES,
            r.spec_flags() == (DBFlags { strict_mode: false, mmap_populate: false, direct_writes: false }),
    {
        let os = os_page_size();
        let pagesize: u64 = if os < 1024 {
            1024
        } else {
            os as u64
        };
        OpenOptions {
            pagesize,
            num_pages: DEFAULT_NUM_PAGES,
            flags: DBFlags { strict_mode: false, mmap_populate: false, direct_writes: false },
        }
    }

    /// Set the page size; it must be at least 1024 bytes.
    pub fn pagesize(self, pagesize: u64) -> (r: OpenOptions)
        requires
            pagesize >= 1024,
        ensures
            r.spec_pagesize() == pagesize,
            r.spec_num_pages() == self.spec_num_pages(),
            r.spec_flags() == self.spec_flags(),
    {
        OpenOptions { pagesize, num_pages: self.num_pages, flags: self.flags }
    }

    /// Set the initial page count; it must be at least 4.
    pub fn num_pages(self, num_pages: usize) -> (r: OpenOptions)
        requires
            num_pages >= 4,
        ensures
            r.spec_pagesize() == self.spec_pagesize(),
            r.spec_num_pages() == num_pages,
            r.spec_flags() == self.spec_flags(),
    {
        OpenOptions { pagesize: self.pagesize, num_pages, flags: self.flags }
    }

    /// Switch extra validation on or off.
    pub fn strict_mode(self, strict_mode: bool) -> (r: OpenOptions)
        ensures
            r.spec_pagesize() == self.spec_pagesize(),
            r.spec_num_pages() == self.spec_num_pages(),
            r.spec_flags() == (DBFlags { strict_mode, ..self.spec_flags() }),
    {
        OpenOptions {
            pagesize: self.pagesize,
            num_pages: self.num_pages,
            flags: DBFlags { strict_mode, ..self.flags },
        }
    }

    /// Switch eager page-in of the mapping on or off.
    pub fn mmap_populate(self, mmap_populate: bool) -> (r: OpenOptions)
        ensures
            r.spec_pagesize() == self.spec_pagesize(),
            r.spec_num_pages() == self.spec_num_pages(),
            r.spec_flags() == (DBFlags { mmap_populate, ..self.spec_flags() }),
    {
        OpenOptions {
            pagesize: self.pagesize,
            num_pages: self.num_pages,
            flags: DBFlags { mmap_populate, ..self.flags },
        }
    }

    /// Switch direct (page-cache-bypassing) writes on or off.
    pub fn direct_writes(self, direct_writes: bool) -> (r: OpenOptions)
        ensures
            r.spec_pagesize() == self.spec_pagesize(),
            r.spec_num_pages() == self.spec_num_pages(),
            r.spec_flags() == (DBFlags { direct_writes, ..self.spec_flags() }),
    {
        OpenOptions {
            pagesize: self.pagesize,
            num_pages: self.num_pages,
            flags: DBFlags { direct_writes, ..self.flags },
        }
    }

    /// Open a database over the pages of an existing file image:
    /// select the authoritative meta record, validate the root leaf
    /// and the stored freelist, and seed the allocator.
    #[verifier::rlimit(100)]
    #[verifier::spinoff_prover]
    pub fn open(self, pages: Vec<Vec<u8>>) -> (r: Result<DB, Error>)
        requires
            self.spec_pagesize() >= 1024,
            self.spec_pagesize() <= usize::MAX,
        ensures
            match r {
                Ok(db) => {
                    &&& db.wf()
                    &&& db.spec_pagesize() == self.spec_pagesize()
                    &&& db.readers().len() == 0
                    &&& !db.writer_active()
                    &&& spec_select_pages(pages@[0]@, pages@[1]@) == Some(db.spec_meta())
                    &&& db.committed().len() == parse_hdr(
                        pages@[db.spec_meta().root.root_page as int]@,
                    ).count
                    &&& leaf_encodes(
                        pages@[db.spec_meta().root.root_page as int]@,
                        db.committed(),
                    )
                    &&& crate::node::entries_len_ok(db.committed())
                    &&& db.spec_meta().root.root_page < pages@.len()
                    &&& db.spec_meta().freelist_page < pages@.len()
                    &&& fl_encodes(
                        pages@[db.spec_meta().freelist_page as int]@,
                        db.spec_freelist().free_seq(),
                    )
                    &&& db.spec_freelist().pending_seq().len() == 0
                },
                Err(_) => true,
            },
            initial_shape(pages@, self.spec_pagesize()) ==> r is Ok,
            r == Err::<DB, Error>(Error::NoValidMeta) ==> spec_select_pages(
                pages@[0]@,
                pages@[1]@,
            ) is None,
            r == Err::<DB, Error>(Error::PagesizeMismatch) ==> ((valid_meta_page(pages@[0]@)
                && parse_meta(pages@[0]@).pagesize != self.spec_pagesize()) || (valid_meta_page(
                pages@[1]@,
            ) && parse_meta(pages@[1]@).pagesize != self.spec_pagesize())),
    {
        let ps = self.pagesize;
        let psu = ps as usize;
        if pages.len() < 4 {
            return Err(Error::BadImage);
        }
        let pcount = pages.len();
        if pages[0].len() < PAGE_HDR_SIZE + META_RECORD_SIZE || pages[1].len() < PAGE_HDR_SIZE
            + META_RECORD_SIZE {
            return Err(Error::BadImage);
        }
        let h1 = read_hdr(&pages[0]);
        let h2 = read_hdr(&pages[1]);
        let m1 = read_meta_page(&pages[0]);
        let m2 = read_meta_page(&pages[1]);
        let v1 = h1.page_type == PAGE_TYPE_META && m1.valid();
        let v2 = h2.page_type == PAGE_TYPE_META && m2.valid();
        let m = match select_by(v1, &m1, v2, &m2, ps) {
            Ok(m) => m,
            Err(e) => {
                return Err(e);
            },
        };
        let mut i: usize = 0;
        while i < pcount
            invariant
                pcount == pages@.len(),
                0 <= i <= pcount,
                psu == self.pagesize,
                forall|j: int| 0 <= j < i ==> (#[trigger] pages@[j])@.len() == psu,
            decreases pcount - i,
        {
            if pages[i].len() != psu {
                return Err(Error::BadImage);
            }
            i = i + 1;
        }
        let slot = m.meta_page;
        if slot >= 2 {
            return Err(Error::BadImage);
        }
        let slot_matches = if slot == 0 {
            meta_eq(&m, &m1)
        } else {
            meta_eq(&m, &m2)
        };
        if !slot_matches {
            return Err(Error::BadImage);
        }
        let slot_tag = if slot == 0 {
            h1.page_type
        } else {
            h2.page_type
        };
        if slot_tag != PAGE_TYPE_META {
            return Err(Error::BadImage);
        }
        if m.tx_id == u64::MAX {
            return Err(Error::BadImage);
        }
        let num_pages = m.num_pages;
        if num_pages < 4 || num_pages > pcount as u64 {
            return Err(Error::BadImage);
        }
        let root = m.root.root_page;
        let fp = m.freelist_page;
        if root < 2 || root >= num_pages || fp < 2 || fp >= num_pages || root == fp {
            return Err(Error::BadImage);
        }
        let v_other = if slot == 0 {
            v2
        } else {
            v1
        };
        let other = if slot == 0 {
            &m2
        } else {
            &m1
        };
        if v_other && other.pagesize != ps {
            return Err(Error::PagesizeMismatch);
        }
        let hdr = read_hdr(&pages[root as usize]);
        if hdr.page_type != PAGE_TYPE_LEAF {
            return Err(Error::BadImage);
        }
        let entries = match decode_entries_checked(&pages[root as usize], PAGE_HDR_SIZE, hdr.count, psu) {
            Some(es) => es,
            None => {
                return Err(Error::BadImage);
            },
        };
        if !check_unique_keys(&entries) {
            return Err(Error::BadImage);
        }
        let fhdr = read_hdr(&pages[fp as usize]);
        if fhdr.page_type != PAGE_TYPE_FREELIST {
            return Err(Error::BadImage);
        }
        let ids = match decode_ids_checked(&pages[fp as usize], PAGE_HDR_SIZE, fhdr.count, psu) {
            Some(ids) => ids,
            None => {
                return Err(Error::BadImage);
            },
        };
        if !check_ids(&ids, num_pages, root, fp) {
            return Err(Error::BadImage);
        }
        let mut freelist = Freelist::new();
        let ghost ids_view = ids@;
        freelist.init(ids);
        let ghost committed = entries_view(entries@);
        proof {
            assert forall|i: int|
                0 <= i < committed.len() implies (#[trigger] committed[i]).0.len() <= u64::MAX
                && committed[i].1.len() <= u64::MAX by {
                vstd::std_specs::vec::axiom_spec_len(&entries@[i].0);
                vstd::std_specs::vec::axiom_spec_len(&entries@[i].1);
                assert(committed[i] == (entries@[i].0@, entries@[i].1@));
            }
            assert(crate::node::entries_len_ok(committed));
        }
        let db = DB {
            pages,
            pagesize: ps,
            freelist,
            open_ro_txs: Vec::new(),
            flags: self.flags,
            meta: m,
            writer_open: false,
            committed: Ghost(committed),
            snaps: Ghost(Map::empty()),
        };
        proof {
            assert forall|p: PageID| #[trigger] db.freelist.free_has(p) implies 2 <= p
                < db.meta@.num_pages && p != db.meta@.root.root_page && p
                != db.meta@.freelist_page by {
                let ix = choose|ix: int| 0 <= ix < ids_view.len() && ids_view[ix] == p;
            }
            assert forall|t: u64, p: PageID| #[trigger] db.freelist.pending_has_under(t, p)
                implies false by {}
            if db.meta@.meta_page == 0 {
                assert(slot == 0);
                assert(slot_tag == h1.page_type);
                assert(h1.page_type == PAGE_TYPE_META);
                assert(parse_hdr(db.pages@[0]@) == h1);
                assert(db.meta@.meta_page as int == 0);
                assert(parse_hdr(db.pages@[db.meta@.meta_page as int]@).page_type
                    == PAGE_TYPE_META);
            } else {
                assert(slot == 1);
                assert(slot_tag == h2.page_type);
                assert(h2.page_type == PAGE_TYPE_META);
                assert(parse_hdr(db.pages@[1]@) == h2);
                assert(db.meta@.meta_page as int == 1);
                assert(parse_hdr(db.pages@[db.meta@.meta_page as int]@).page_type
                    == PAGE_TYPE_META);
            }
            assert(db.wf());
        }
        Ok(db)
    }
}

/// A page of `n` zero bytes.
pub fn zero_page(n: usize) -> (r: Vec<u8>)
    ensures
        r@.len() == n,
        forall|j: int| 0 <= j < n ==> r@[j] == 0u8,
{
    let mut r: Vec<u8> = Vec::new();
    let mut i: usize = 0;
    while i < n
        invariant
            0 <= i <= n,
            r@.len() == i,
            forall|j: int| 0 <= j < i ==> r@[j] == 0u8,
        decreases n - i,
    {
        r.push(0u8);
        i = i + 1;
    }
    r
}

/// A page holds the leaf encoding of `es` behind its header.
pub open spec fn leaf_encodes(p: Seq<u8>, es: Seq<(Seq<u8>, Seq<u8>)>) -> bool {
    &&& p.len() >= PAGE_HDR_SIZE
    &&& parse_hdr(p).page_type == PAGE_TYPE_LEAF
    &&& parse_hdr(p).count == es.len()
    &&& PAGE_HDR_SIZE + enc_entries(es).len() <= p.len()
    &&& p.subrange(PAGE_HDR_SIZE as int, PAGE_HDR_SIZE + enc_entries(es).len()) == enc_entries(es)
}

/// A page holds the freelist encoding of `ids` behind its header.
pub open spec fn fl_encodes(p: Seq<u8>, ids: Seq<u64>) -> bool {
    &&& p.len() >= PAGE_HDR_SIZE
    &&& parse_hdr(p).page_type == PAGE_TYPE_FREELIST
    &&& parse_hdr(p).count == ids.len()
    &&& PAGE_HDR_SIZE + enc_ids(ids).len() <= p.len()
    &&& p.subrange(PAGE_HDR_SIZE as int, PAGE_HDR_SIZE + enc_ids(ids).len()) == enc_ids(ids)
}

/// What the meta records of a fresh database hold.
pub open spec fn initial_meta(m: MetaView, slot: u32, pagesize: u64) -> bool {
    &&& m.meta_page == slot
    &&& m.magic == MAGIC_VALUE
    &&& m.version == VERSION
    &&& m.pagesize == pagesize
    &&& m.root == (BucketMeta { root_page: 3, next_int: 0 })
    &&& m.num_pages == 4
    &&& m.freelist_page == 2
    &&& m.tx_id == 0
    &&& spec_valid(m)
}

/// The shape of a freshly created database image: correctly sized
/// pages, both meta slots carrying valid initial records behind meta
/// tags, an empty root leaf, and an empty freelist page.
pub open spec fn initial_shape(pages: Seq<Vec<u8>>, pagesize: u64) -> bool {
    &&& pages.len() >= 4
    &&& forall|i: int| 0 <= i < pages.len() ==> (#[trigger] pages[i])@.len() == pagesize
    &&& initial_meta(parse_meta(pages[0]@), 0, pagesize)
    &&& initial_meta(parse_meta(pages[1]@), 1, pagesize)
    &&& parse_hdr(pages[0]@).page_type == PAGE_TYPE_META
    &&& parse_hdr(pages[1]@).page_type == PAGE_TYPE_META
    &&& leaf_encodes(pages[3]@, Seq::empty())
    &&& fl_encodes(pages[2]@, Seq::empty())
}

/// Build the image of a fresh database file: two identical meta
/// records in the two meta slots, an empty freelist page, and an empty
/// root leaf page, followed by untouched pages.
pub fn initial_image(pagesize: u64, num_pages: usize) -> (r: Vec<Vec<u8>>)
    requires
        pagesize >= 1024,
        pagesize <= usize::MAX,
        num_pages >= 4,
    ensures
        r@.len() == num_pages,
        forall|i: int| 0 <= i < num_pages ==> (#[trigger] r@[i])@.len() == pagesize,
        initial_meta(parse_meta(r@[0]@), 0, pagesize),
        initial_meta(parse_meta(r@[1]@), 1, pagesize),
        parse_hdr(r@[0]@).page_type == PAGE_TYPE_META,
        parse_hdr(r@[1]@).page_type == PAGE_TYPE_META,
        leaf_encodes(r@[3]@, Seq::empty()),
        fl_encodes(r@[2]@, Seq::empty()),
        initial_shape(r@, pagesize),
{
    let ps = pagesize as usize;
    let mut pages: Vec<Vec<u8>> = Vec::new();
    let mut slot: u32 = 0;
    while slot < 2
        invariant
            pagesize >= 1024,
            pagesize <= usize::MAX,
            ps == pagesize,
            0 <= slot <= 2,
            pages@.len() == slot,
            forall|i: int| 0 <= i < slot ==> (#[trigger] pages@[i])@.len() == pagesize,
            forall|i: int|
                0 <= i < slot ==> initial_meta(parse_meta((#[trigger] pages@[i])@), i as u32, pagesize),
            forall|i: int|
                0 <= i < slot ==> parse_hdr((#[trigger] pages@[i])@).page_type == PAGE_TYPE_META,
        decreases 2 - slot,
    {
        let mut m = Meta {
            meta_page: slot,
            magic: MAGIC_VALUE,
            version: VERSION,
            pagesize,
            root: BucketMeta { root_page: 3, next_int: 0 },
            num_pages: 4,
            freelist_page: 2,
            tx_id: 0,
            hash: Vec::new(),
        };
        let h = m.hash_self();
        m.hash = h;
        let mut pg = zero_page(ps);
        write_meta_page(&mut pg, &m, slot as u64);
        pages.push(pg);
        slot = slot + 1;
    }
    let mut fl_page = zero_page(ps);
    write_hdr(
        &mut fl_page,
        PageHdr { id: 2, page_type: PAGE_TYPE_FREELIST, count: 0, overflow: 0 },
    );
    proof {
        assert(enc_ids(Seq::<u64>::empty()) == Seq::<u8>::empty());
        assert(fl_page@.subrange(PAGE_HDR_SIZE as int, PAGE_HDR_SIZE as int) =~= enc_ids(
            Seq::<u64>::empty(),
        ));
    }
    pages.push(fl_page);
    let mut leaf_page = zero_page(ps);
    write_hdr(
        &mut leaf_page,
        PageHdr { id: 3, page_type: PAGE_TYPE_LEAF, count: 0, overflow: 0 },
    );
    proof {
        assert(enc_entries(Seq::<(Seq<u8>, Seq<u8>)>::empty()) == Seq::<u8>::empty());
        assert(leaf_page@.subrange(PAGE_HDR_SIZE as int, PAGE_HDR_SIZE as int) =~= enc_entries(
            Seq::<(Seq<u8>, Seq<u8>)>::empty(),
        ));
    }
    pages.push(leaf_page);
    let mut i: usize = 4;
    while i < num_pages
        invariant
            pagesize <= usize::MAX,
            ps == pagesize,
            4 <= i <= num_pages,
            pages@.len() == i,
            forall|j: int| 0 <= j < i ==> (#[trigger] pages@[j])@.len() == pagesize,
            initial_meta(parse_meta(pages@[0]@), 0, pagesize),
            initial_meta(parse_meta(pages@[1]@), 1, pagesize),
            parse_hdr(pages@[0]@).page_type == PAGE_TYPE_META,
            parse_hdr(pages@[1]@).page_type == PAGE_TYPE_META,
            leaf_encodes(pages@[3]@, Seq::empty()),
            fl_encodes(pages@[2]@, Seq::empty()),
        decreases num_pages - i,
    {
        pages.push(zero_page(ps));
        i = i + 1;
    }
    pages
}


/// The fixed view a read transaction holds: the root page it reads
/// through and the committed contents at its start.
pub ghost struct SnapView {
    pub root: PageID,
    pub entries: Seq<(Seq<u8>, Seq<u8>)>,
}

/// An open transaction. A write transaction works on a private copy of
/// the committed entries until commit; a read transaction reads the
/// pages of its snapshot through the database.
pub struct Tx {
    writable: bool,
    meta: Meta,
    entries: Vec<KV>,
}

impl Tx {
    /// Whether this transaction may write.
    pub closed spec fn spec_writable(self) -> bool {
        self.writable
    }

    /// The meta record this transaction started from.
    pub closed spec fn spec_meta(self) -> MetaView {
        self.meta@
    }

    /// The transaction id of the snapshot this transaction reads.
    pub closed spec fn snap_id(self) -> u64 {
        self.meta@.tx_id
    }

    /// A write transaction's working contents.
    pub closed spec fn view(self) -> Seq<(Seq<u8>, Seq<u8>)> {
        entries_view(self.entries@)
    }

    /// The working contents hold no duplicate key.
    pub open spec fn inv(self) -> bool {
        crate::bucket::unique_keys(self.view())
    }

    /// Whether this transaction may write.
    pub fn writable(&self) -> (r: bool)
        ensures
            r == self.spec_writable(),
    {
        self.writable
    }

    /// The transaction id of the snapshot this transaction reads.
    pub fn id(&self) -> (r: u64)
        ensures
            r == self.snap_id(),
    {
        self.meta.tx_id
    }

    /// Store `value` under `key` in this write transaction's working
    /// contents; nothing is visible outside until commit.
    pub fn put(&mut self, key: Vec<u8>, value: Vec<u8>) -> (r: Result<(), Error>)
        requires
            old(self).inv(),
        ensures
            final(self).inv(),
            final(self).spec_writable() == old(self).spec_writable(),
            final(self).spec_meta() == old(self).spec_meta(),
            forall|db: DB| db.tx_ok(*old(self)) ==> db.tx_ok(*final(self)),
            match r {
                Ok(()) => {
                    &&& old(self).spec_writable()
                    &&& final(self).view() == crate::bucket::store(old(self).view(), key@, value@)
                },
                Err(Error::ReadOnlyTx) => !old(self).spec_writable() && *final(self) == *old(self),
                Err(_) => false,
            },
    {
        if !self.writable {
            return Err(Error::ReadOnlyTx);
        }
        let ghost pre = self.view();
        match find_key(&self.entries, &key) {
            Some(j) => {
                proof {
                    crate::bucket::lemma_store_update(pre, j as int, key@, value@);
                    crate::bucket::lemma_store_unique(pre, key@, value@);
                }
                self.entries.set(j, (key, value));
                proof {
                    assert(final(self).view() =~= pre.update(j as int, (key@, value@)));
                }
            },
            None => {
                proof {
                    crate::bucket::lemma_store_push(pre, key@, value@);
                    crate::bucket::lemma_store_unique(pre, key@, value@);
                }
                self.entries.push((key, value));
                proof {
                    assert(final(self).view() =~= pre.push((key@, value@)));
                }
            },
        }
        Ok(())
    }

    /// Delete `key` from this write transaction's working contents;
    /// deleting an absent key changes nothing.
    pub fn delete(&mut self, key: &Vec<u8>) -> (r: Result<(), Error>)
        requires
            old(self).inv(),
        ensures
            final(self).inv(),
            final(self).spec_writable() == old(self).spec_writable(),
            final(self).spec_meta() == old(self).spec_meta(),
            forall|db: DB| db.tx_ok(*old(self)) ==> db.tx_ok(*final(self)),
            match r {
                Ok(()) => {
                    &&& old(self).spec_writable()
                    &&& final(self).view() == crate::bucket::remove_key(old(self).view(), key@)
                },
                Err(Error::ReadOnlyTx) => !old(self).spec_writable() && *final(self) == *old(self),
                Err(_) => false,
            },
    {
        if !self.writable {
            return Err(Error::ReadOnlyTx);
        }
        let ghost pre = self.view();
        match find_key(&self.entries, key) {
            Some(j) => {
                proof {
                    crate::bucket::lemma_remove_at(pre, j as int, key@);
                    crate::bucket::lemma_remove_unique(pre, key@);
                }
                self.entries.remove(j);
                proof {
                    assert(final(self).view() =~= pre.remove(j as int));
                }
            },
            None => {
                proof {
                    crate::bucket::lemma_remove_absent(pre, key@);
                }
            },
        }
        Ok(())
    }
}

/// Whether two meta records hold the same fields and hash.
fn meta_eq(a: &Meta, b: &Meta) -> (r: bool)
    ensures
        r == (a@ == b@),
{
    let fields_eq = a.meta_page == b.meta_page && a.magic == b.magic && a.version == b.version
        && a.pagesize == b.pagesize && a.root.root_page == b.root.root_page && a.root.next_int
        == b.root.next_int && a.num_pages == b.num_pages && a.freelist_page == b.freelist_page
        && a.tx_id == b.tx_id;
    if !fields_eq {
        return false;
    }
    bytes_eq(&a.hash, &b.hash)
}

/// First index whose key equals `key`, if any.
fn find_key(es: &Vec<KV>, key: &Vec<u8>) -> (r: Option<usize>)
    ensures
        match r {
            Some(j) => {
                &&& j < es@.len()
                &&& entries_view(es@)[j as int].0 == key@
                &&& forall|i: int| 0 <= i < j ==> (#[trigger] entries_view(es@)[i]).0 != key@
            },
            None => forall|i: int|
                0 <= i < es@.len() ==> (#[trigger] entries_view(es@)[i]).0 != key@,
        },
{
    let n = es.len();
    let mut j: usize = 0;
    while j < n
        invariant
            n == es@.len(),
            0 <= j <= n,
            forall|i: int| 0 <= i < j ==> (#[trigger] entries_view(es@)[i]).0 != key@,
        decreases n - j,
    {
        if bytes_eq(&es[j].0, key) {
            return Some(j);
        }
        j = j + 1;
    }
    None
}

/// Whether all keys of `es` are pairwise distinct.
fn check_unique_keys(es: &Vec<KV>) -> (r: bool)
    ensures
        r == crate::bucket::unique_keys(entries_view(es@)),
{
    let n = es.len();
    let mut a: usize = 0;
    while a < n
        invariant
            n == es@.len(),
            0 <= a <= n,
            forall|i: int, j: int|
                0 <= i < j < n && i < a ==> (#[trigger] entries_view(es@)[i]).0 != (
                #[trigger] entries_view(es@)[j]).0,
        decreases n - a,
    {
        let mut b: usize = a + 1;
        while b < n
            invariant
                n == es@.len(),
                0 <= a < n,
                a < b <= n,
                forall|j: int|
                    a < j < b ==> (#[trigger] entries_view(es@)[j]).0 != entries_view(
                        es@,
                    )[a as int].0,
            decreases n - b,
        {
            if bytes_eq(&es[a].0, &es[b].0) {
                proof {
                    assert(entries_view(es@)[a as int].0 == entries_view(es@)[b as int].0);
                }
                return false;
            }
            b = b + 1;
        }
        a = a + 1;
    }
    true
}

/// Whether the page ids read from a freelist page can seed the
/// allocator: pairwise distinct, inside the data area, and aliasing
/// neither the root nor the freelist page.
fn check_ids(ids: &Vec<u64>, num_pages: u64, root: u64, fp: u64) -> (r: bool)
    ensures
        r == ({
            &&& ids@.no_duplicates()
            &&& forall|i: int|
                0 <= i < ids@.len() ==> 2 <= #[trigger] ids@[i] < num_pages && ids@[i] != root
                    && ids@[i] != fp
        }),
{
    let n = ids.len();
    let mut a: usize = 0;
    while a < n
        invariant
            n == ids@.len(),
            0 <= a <= n,
            forall|i: int|
                0 <= i < a ==> 2 <= #[trigger] ids@[i] < num_pages && ids@[i] != root && ids@[i]
                    != fp,
            forall|i: int, j: int| 0 <= i < j < n && i < a ==> ids@[i] != ids@[j],
        decreases n - a,
    {
        let x = ids[a];
        if x < 2 || x >= num_pages || x == root || x == fp {
            return false;
        }
        let mut b: usize = a + 1;
        while b < n
            invariant
                n == ids@.len(),
                0 <= a < n,
                a < b <= n,
                x == ids@[a as int],
                forall|j: int| a < j < b ==> ids@[j] != x,
            decreases n - b,
        {
            if ids[b] == x {
                return false;
            }
            b = b + 1;
        }
        a = a + 1;
    }
    true
}

/// The open database: the page image, the committed meta record, the
/// free-page allocator, and the registry of open read transactions.
pub struct DB {
    pages: Vec<Vec<u8>>,
    pagesize: u64,
    freelist: Freelist,
    open_ro_txs: Vec<u64>,
    flags: DBFlags,
    meta: Meta,
    writer_open: bool,
    committed: Ghost<Seq<(Seq<u8>, Seq<u8>)>>,
    snaps: Ghost<Map<u64, SnapView>>,
}

impl DB {
    /// The configured page size.
    pub closed spec fn spec_pagesize(self) -> u64 {
        self.pagesize
    }

    /// The committed contents of the root bucket.
    pub closed spec fn committed(self) -> Seq<(Seq<u8>, Seq<u8>)> {
        self.committed@
    }

    /// The authoritative meta record.
    pub closed spec fn spec_meta(self) -> MetaView {
        self.meta@
    }

    /// The ids of the open read transactions, in order of start.
    pub closed spec fn readers(self) -> Seq<u64> {
        self.open_ro_txs@
    }

    /// The fixed view of the snapshot with id `id`.
    pub closed spec fn snap(self, id: u64) -> SnapView {
        self.snaps@[id]
    }

    /// The contents a reader with snapshot id `id` sees.
    pub open spec fn snap_entries(self, id: u64) -> Seq<(Seq<u8>, Seq<u8>)> {
        self.snap(id).entries
    }

    /// The free-page allocator's state.
    pub closed spec fn spec_freelist(self) -> Freelist {
        self.freelist
    }

    /// Whether a write transaction is active.
    pub closed spec fn writer_active(self) -> bool {
        self.writer_open
    }

    /// The page image.
    pub closed spec fn spec_pages(self) -> Seq<Vec<u8>> {
        self.pages@
    }

    /// The conditions an open reader's snapshot keeps: registered,
    /// readable through an intact leaf page that the allocator will not
    /// hand out, and pinned by a pending free whenever a later commit
    /// replaced it.
    pub closed spec fn reader_ok(self, id: u64) -> bool {
        &&& self.snaps@.contains_key(id)
        &&& id <= self.meta@.tx_id
        &&& 2 <= self.snaps@[id].root < self.meta@.num_pages
        &&& leaf_encodes(self.pages@[self.snaps@[id].root as int]@, self.snaps@[id].entries)
        &&& crate::bucket::unique_keys(self.snaps@[id].entries)
        &&& !self.freelist.free_has(self.snaps@[id].root)
        &&& (id == self.meta@.tx_id ==> self.snaps@[id].root == self.meta@.root.root_page
            && self.snaps@[id].entries == self.committed@)
        &&& (id < self.meta@.tx_id ==> exists|t: u64|
            t > id && #[trigger] self.freelist.pending_has_under(t, self.snaps@[id].root))
    }

    /// The whole-database invariant.
    pub closed spec fn wf(self) -> bool {
        let m = self.meta@;
        &&& self.pagesize >= 1024
        &&& self.pagesize <= usize::MAX
        &&& self.pages@.len() >= 4
        &&& forall|i: int| 0 <= i < self.pages@.len() ==> (#[trigger] self.pages@[i])@.len() == self.pagesize
        &&& m.meta_page < 2
        &&& spec_valid(m)
        &&& m.pagesize == self.pagesize
        &&& parse_meta(self.pages@[m.meta_page as int]@) == m
        &&& parse_hdr(self.pages@[m.meta_page as int]@).page_type == PAGE_TYPE_META
        &&& 4 <= m.num_pages <= self.pages@.len()
        &&& m.tx_id < u64::MAX
        &&& (valid_meta_page(self.pages@[1 - m.meta_page as int]@) ==> parse_meta(
            self.pages@[1 - m.meta_page as int]@,
        ).tx_id <= m.tx_id && parse_meta(self.pages@[1 - m.meta_page as int]@).pagesize
            == self.pagesize)
        &&& 2 <= m.root.root_page < m.num_pages
        &&& leaf_encodes(self.pages@[m.root.root_page as int]@, self.committed@)
        &&& crate::bucket::unique_keys(self.committed@)
        &&& 2 <= m.freelist_page < m.num_pages
        &&& m.freelist_page != m.root.root_page
        &&& fl_encodes(self.pages@[m.freelist_page as int]@, self.freelist.free_seq())
        &&& self.freelist.wf()
        &&& forall|p: PageID|
            #[trigger] self.freelist.free_has(p) ==> 2 <= p < m.num_pages && p != m.root.root_page
                && p != m.freelist_page
        &&& forall|t: u64, p: PageID|
            #[trigger] self.freelist.pending_has_under(t, p) ==> 2 <= p < m.num_pages && p
                != m.root.root_page && p != m.freelist_page && t <= m.tx_id
        &&& forall|k: int|
            0 <= k < self.open_ro_txs@.len() ==> self.reader_ok(#[trigger] self.open_ro_txs@[k])
    }

    /// Whether `tx` is a transaction this database honours: the single
    /// writer started from the committed meta, or a registered reader.
    pub closed spec fn tx_ok(self, tx: Tx) -> bool {
        if tx.writable {
            &&& self.writer_open
            &&& tx.meta@ == self.meta@
        } else {
            &&& self.open_ro_txs@.contains(tx.meta@.tx_id)
            &&& self.snaps@.contains_key(tx.meta@.tx_id)
            &&& self.snaps@[tx.meta@.tx_id].root == tx.meta@.root.root_page
        }
    }

    /// The configured page size.
    pub fn pagesize(&self) -> (r: u64)
        ensures
            r == self.spec_pagesize(),
    {
        self.pagesize
    }

    /// The committed transaction id.
    pub fn tx_id(&self) -> (r: u64)
        ensures
            r == self.spec_meta().tx_id,
    {
        self.meta.tx_id
    }

    /// Which meta slot is authoritative.
    pub fn meta_slot(&self) -> (r: u32)
        ensures
            r == self.spec_meta().meta_page,
    {
        self.meta.meta_page
    }

    /// The committed page count.
    pub fn num_pages(&self) -> (r: u64)
        ensures
            r == self.spec_meta().num_pages,
    {
        self.meta.num_pages
    }

    /// The page image, for writing the database back to its file.
    pub fn pages_ref(&self) -> (r: &Vec<Vec<u8>>)
        ensures
            r@ == self.spec_pages(),
    {
        &self.pages
    }

    /// Begin a transaction: a writer takes a private copy of the
    /// committed contents; a reader registers its snapshot id and
    /// thereafter reads only pages reachable from it.
    #[verifier::rlimit(60)]
    #[verifier::spinoff_prover]
    pub fn tx(&mut self, writable: bool) -> (r: Result<Tx, Error>)
        requires
            old(self).wf(),
        ensures
            final(self).wf(),
            final(self).spec_meta() == old(self).spec_meta(),
            final(self).committed() == old(self).committed(),
            final(self).spec_pagesize() == old(self).spec_pagesize(),
            final(self).spec_freelist() == old(self).spec_freelist(),
            forall|t2: Tx| old(self).tx_ok(t2) ==> final(self).tx_ok(t2),
            forall|id: u64|
                #[trigger] old(self).readers().contains(id) ==> final(self).snap(id) == old(self).snap(id),
            match r {
                Ok(t) => {
                    &&& t.spec_writable() == writable
                    &&& t.spec_meta() == old(self).spec_meta()
                    &&& final(self).tx_ok(t)
                    &&& t.inv()
                    &&& (writable ==> t.view() == old(self).committed() && final(self).writer_active()
                        && final(self).readers() == old(self).readers())
                    &&& (!writable ==> final(self).readers() == old(self).readers().push(
                        t.snap_id(),
                    ) && final(self).snap_entries(t.snap_id()) == old(self).committed()
                        && final(self).writer_active() == old(self).writer_active())
                },
                Err(Error::WriterActive) => {
                    &&& writable && old(self).writer_active()
                    &&& *final(self) == *old(self)
                },
                Err(_) => false,
            },
    {
        if writable {
            if self.writer_open {
                return Err(Error::WriterActive);
            }
            self.writer_open = true;
            let root = self.meta.root.root_page;
            let plen: usize = self.pages.len();
            proof {
                assert(root < self.meta@.num_pages <= plen);
                assert(leaf_encodes(self.pages@[root as int]@, self.committed@));
            }
            let page = &self.pages[root as usize];
            proof {
                assert(page@ == self.pages@[root as int]@);
            }
            let hdr = read_hdr(page);
            proof {
                assert(hdr.count == self.committed@.len());
                assert(page@.subrange(
                    PAGE_HDR_SIZE as int,
                    PAGE_HDR_SIZE + enc_entries(self.committed@).len(),
                ) == enc_entries(self.committed@));
            }
            let entries = decode_entries(
                page,
                PAGE_HDR_SIZE,
                hdr.count,
                Ghost(self.committed@),
            );
            let m = self.meta.dup();
            return Ok(Tx { writable: true, meta: m, entries });
        }
        let id = self.meta.tx_id;
        let ghost old_snaps = self.snaps@;
        let sv = Ghost(SnapView { root: self.meta.root.root_page, entries: self.committed@ });
        proof {
            if old_snaps.contains_key(id) && self.open_ro_txs@.contains(id) {
                let k = choose|k: int|
                    0 <= k < self.open_ro_txs@.len() && self.open_ro_txs@[k] == id;
                assert(self.reader_ok(id));
            }
        }
        self.snaps = Ghost(old_snaps.insert(id, sv@));
        self.open_ro_txs.push(id);
        let m = self.meta.dup();
        let t = Tx { writable: false, meta: m, entries: Vec::new() };
        proof {
            assert forall|k: int|
                0 <= k < self.open_ro_txs@.len() implies (*self).reader_ok(
                #[trigger] self.open_ro_txs@[k]) by {
                let rid = self.open_ro_txs@[k];
                if k < self.open_ro_txs@.len() - 1 {
                    assert(old(self).reader_ok(rid));
                    if rid == id {
                        assert(old(self).snaps@[rid] == sv@);
                    }
                } else {
                    assert(rid == id);
                }
            }
            assert forall|id2: u64|
                #[trigger] old(self).readers().contains(id2) implies (*self).snap(id2) == old(self).snap(id2) by {
                if id2 == id {
                    let kk = choose|kk: int|
                        0 <= kk < old(self).open_ro_txs@.len() && old(self).open_ro_txs@[kk] == id2;
                    assert(old(self).reader_ok(id2));
                    assert(old(self).snaps@[id2] == sv@);
                }
            }
            assert forall|t2: Tx| old(self).tx_ok(t2) implies (*self).tx_ok(t2) by {
                if !t2.spec_writable() {
                    let tid = t2.spec_meta().tx_id;
                    if tid == id {
                        let k = choose|k: int|
                            0 <= k < old(self).open_ro_txs@.len() && old(self).open_ro_txs@[k]
                                == tid;
                        assert(old(self).reader_ok(tid));
                        assert(old(self).snaps@[tid] == sv@);
                    }
                    assert(self.open_ro_txs@.contains(tid));
                }
            }
            assert(entries_view(Seq::<KV>::empty()) =~= Seq::<(Seq<u8>, Seq<u8>)>::empty());
        }
        Ok(t)
    }

    /// Read the value under `key` as this transaction sees it: a
    /// writer sees its own working contents, a reader the contents
    /// committed when its snapshot began.
    pub fn get(&self, tx: &Tx, key: &Vec<u8>) -> (r: Option<Vec<u8>>)
        requires
            tx.spec_writable() || (self.wf() && self.tx_ok(*tx)),
        ensures
            match r {
                Some(v) => crate::bucket::lookup(
                    if tx.spec_writable() {
                        tx.view()
                    } else {
                        self.snap_entries(tx.snap_id())
                    },
                    key@,
                ) == Some(v@),
                None => crate::bucket::lookup(
                    if tx.spec_writable() {
                        tx.view()
                    } else {
                        self.snap_entries(tx.snap_id())
                    },
                    key@,
                ) is None,
            },
    {
        if tx.writable {
            return get_in(&tx.entries, key);
        }
        let ghost id = tx.meta@.tx_id;
        proof {
            let k = choose|k: int| 0 <= k < self.open_ro_txs@.len() && self.open_ro_txs@[k] == id;
            assert(self.reader_ok(id));
        }
        let root = tx.meta.root.root_page;
        let ghost snap_es = self.snaps@[id].entries;
        let plen: usize = self.pages.len();
        proof {
            assert(root == self.snaps@[id].root);
            assert(root < self.meta@.num_pages <= plen);
            assert(leaf_encodes(self.pages@[root as int]@, snap_es));
        }
        let page = &self.pages[root as usize];
        proof {
            assert(page@ == self.pages@[root as int]@);
        }
        let hdr = read_hdr(page);
        proof {
            assert(hdr.count == snap_es.len());
            assert(page@.subrange(
                PAGE_HDR_SIZE as int,
                PAGE_HDR_SIZE + enc_entries(snap_es).len(),
            ) == enc_entries(snap_es));
        }
        let entries = decode_entries(page, PAGE_HDR_SIZE, hdr.count, Ghost(snap_es));
        get_in(&entries, key)
    }

    /// Close a read transaction: deregister its snapshot id so that
    /// reclamation can advance past it.
    pub fn finish(&mut self, tx: Tx)
        requires
            old(self).wf(),
            old(self).tx_ok(tx),
            !tx.spec_writable(),
        ensures
            final(self).wf(),
            final(self).spec_meta() == old(self).spec_meta(),
            final(self).committed() == old(self).committed(),
            final(self).spec_pagesize() == old(self).spec_pagesize(),
            final(self).writer_active() == old(self).writer_active(),
            forall|id2: u64| #[trigger] final(self).snap(id2) == old(self).snap(id2),
            exists|i: int|
                #![auto]
                0 <= i < old(self).readers().len() && old(self).readers()[i] == tx.snap_id() && (
                forall|j: int| 0 <= j < i ==> old(self).readers()[j] != tx.snap_id()) && final(self).readers() == old(self).readers().remove(i),
    {
        let id = tx.meta.tx_id;
        let n = self.open_ro_txs.len();
        let mut k: usize = 0;
        while k < n
            invariant
                old(self).wf(),
                old(self).open_ro_txs@.contains(tx.meta@.tx_id),
                id == tx.meta@.tx_id,
                n == self.open_ro_txs@.len(),
                0 <= k <= n,
                *self == *old(self),
                forall|j: int| 0 <= j < k ==> old(self).open_ro_txs@[j] != id,
            decreases n - k,
        {
            if self.open_ro_txs[k] == id {
                self.open_ro_txs.remove(k);
                proof {
                    let pre = old(self).open_ro_txs@;
                    assert(self.open_ro_txs@ =~= pre.subrange(0, k as int) + pre.subrange(
                        k + 1,
                        n as int,
                    ));
                    assert forall|j: int|
                        0 <= j < self.open_ro_txs@.len() implies (*self).reader_ok(
                    #[trigger] self.open_ro_txs@[j]) by {
                        if j < k {
                            assert(self.open_ro_txs@[j] == pre.subrange(0, k as int)[j]);
                            assert(old(self).open_ro_txs@[j] == self.open_ro_txs@[j]);
                            assert(old(self).reader_ok(old(self).open_ro_txs@[j]));
                        } else {
                            assert(self.open_ro_txs@[j] == pre.subrange(k + 1, n as int)[j - k]);
                            assert(old(self).open_ro_txs@[j + 1] == self.open_ro_txs@[j]);
                            assert(old(self).reader_ok(old(self).open_ro_txs@[j + 1]));
                        }
                    }
                }
                proof {
                    assert(0 <= k < old(self).readers().len() && old(self).readers()[k as int]
                        == tx.snap_id() && (forall|j: int|
                        0 <= j < k ==> old(self).readers()[j] != tx.snap_id()) && (*self).readers()
                        == old(self).readers().remove(k as int));
                }
                return ;
            }
            k = k + 1;
        }
        proof {
            let ix = choose|ix: int|
                0 <= ix < old(self).open_ro_txs@.len() && old(self).open_ro_txs@[ix] == id;
            assert(false);
        }
    }


    /// The smallest open reader snapshot id, or `default` when no
    /// reader is open.
    fn min_open_id(&self, default: u64) -> (r: u64)
        ensures
            self.readers().len() == 0 ==> r == default,
            forall|k: int| 0 <= k < self.readers().len() ==> r <= #[trigger] self.readers()[k],
            self.readers().len() > 0 ==> self.readers().contains(r),
    {
        let n = self.open_ro_txs.len();
        if n == 0 {
            return default;
        }
        let mut r = self.open_ro_txs[0];
        let mut k: usize = 1;
        while k < n
            invariant
                n == self.open_ro_txs@.len(),
                1 <= k <= n,
                forall|j: int| 0 <= j < k ==> r <= #[trigger] self.open_ro_txs@[j],
                self.open_ro_txs@.contains(r),
            decreases n - k,
        {
            if self.open_ro_txs[k] < r {
                r = self.open_ro_txs[k];
            }
            k = k + 1;
        }
        r
    }

    /// Discard a write transaction: its working copy was never visible
    /// outside it, so the committed state is untouched.
    pub fn rollback(&mut self, tx: Tx)
        requires
            old(self).wf(),
            old(self).tx_ok(tx),
            tx.spec_writable(),
        ensures
            final(self).wf(),
            !final(self).writer_active(),
            final(self).spec_meta() == old(self).spec_meta(),
            final(self).committed() == old(self).committed(),
            final(self).spec_pagesize() == old(self).spec_pagesize(),
            final(self).readers() == old(self).readers(),
            final(self).spec_freelist() == old(self).spec_freelist(),
            forall|t2: Tx| old(self).tx_ok(t2) && !t2.spec_writable() ==> final(self).tx_ok(t2),
    {
        self.writer_open = false;
        proof {
            assert forall|k: int|
                0 <= k < self.open_ro_txs@.len() implies (*self).reader_ok(
            #[trigger] self.open_ro_txs@[k]) by {
                assert(old(self).reader_ok(old(self).open_ro_txs@[k]));
            }
            assert(self.wf());
        }
    }

    /// Commit a write transaction: write its contents to freshly
    /// allocated pages, park the pages they replace until no older
    /// reader is open, grow the image at most once if the allocation
    /// outruns it, and publish the new meta record in the slot the
    /// previous commit did not use.
    #[verifier::rlimit(100)]
    #[verifier::spinoff_prover]
    pub fn commit(&mut self, tx: Tx) -> (r: Result<(), Error>)
        requires
            old(self).wf(),
            old(self).tx_ok(tx),
            tx.spec_writable(),
            tx.inv(),
            old(self).spec_meta().tx_id + 1 < u64::MAX,
            old(self).spec_meta().num_pages + 8193 <= usize::MAX,
        ensures
            final(self).wf(),
            final(self).spec_pagesize() == old(self).spec_pagesize(),
            final(self).readers() == old(self).readers(),
            forall|id: u64|
                #[trigger] old(self).readers().contains(id) ==> final(self).snap(id) == old(self).snap(id),
            forall|t2: Tx| old(self).tx_ok(t2) && !t2.spec_writable() ==> final(self).tx_ok(t2),
            match r {
                Ok(()) => {
                    &&& !final(self).writer_active()
                    &&& final(self).committed() == tx.view()
                    &&& final(self).spec_meta().tx_id == old(self).spec_meta().tx_id + 1
                    &&& final(self).spec_meta().meta_page == 1 - old(self).spec_meta().meta_page
                    &&& final(self).spec_meta().root.next_int == old(self).spec_meta().root.next_int
                    &&& spec_valid(final(self).spec_meta())
                    &&& final(self).spec_pages()[old(self).spec_meta().meta_page as int]@ == old(self).spec_pages()[old(self).spec_meta().meta_page as int]@
                    &&& final(self).spec_freelist().pending_has_under(
                        (old(self).spec_meta().tx_id + 1) as u64,
                        old(self).spec_meta().root.root_page,
                    )
                    &&& (final(self).spec_pages().len() == old(self).spec_pages().len() || final(self).spec_pages().len() >= old(self).spec_pages().len() + MIN_ALLOC_SIZE as int
                        / old(self).spec_pagesize() as int)
                },
                Err(Error::PayloadTooLarge) => {
                    &&& final(self).committed() == old(self).committed()
                    &&& final(self).spec_meta() == old(self).spec_meta()
                    &&& final(self).spec_freelist() == old(self).spec_freelist()
                    &&& (enc_entries(tx.view()).len() + PAGE_HDR_SIZE > old(self).spec_pagesize()
                        || PAGE_HDR_SIZE + 8 * (old(self).spec_freelist().free_seq().len() + old(
                            self,
                        ).spec_freelist().pending_seq().len() + 2) > old(self).spec_pagesize())
                },
                Err(_) => false,
            },
            (enc_entries(tx.view()).len() + PAGE_HDR_SIZE <= old(self).spec_pagesize()
                && PAGE_HDR_SIZE + 8 * (old(self).spec_freelist().free_seq().len() + old(
                self,
            ).spec_freelist().pending_seq().len() + 2) <= old(self).spec_pagesize()) ==> r is Ok,
    {
        let ghost pre = *old(self);
        let ps = self.pagesize;
        let psu = ps as usize;
        let payload = encode_entries(&tx.entries);
        proof {
            assert(payload@ == enc_entries(tx.view()));
        }
        if payload.len() > psu - PAGE_HDR_SIZE {
            self.writer_open = false;
            proof {
                assert(enc_entries(tx.view()).len() + PAGE_HDR_SIZE > pre.spec_pagesize());
            }
            return Err(Error::PayloadTooLarge);
        }
        let old_root = self.meta.root.root_page;
        let old_fp = self.meta.freelist_page;
        let old_np = self.meta.num_pages;
        let new_id = self.meta.tx_id + 1;
        let mut fl2 = self.freelist.duplicate();
        proof {
            assert(pre.wf());
            assert(pre.spec_freelist().wf());
            assert(fl2.free_seq() == pre.spec_freelist().free_seq());
            assert(fl2.pending_seq() == pre.spec_freelist().pending_seq());
            crate::freelist::lemma_wf_same_state(pre.spec_freelist(), fl2);
            assert(fl2.wf());
        }
        let mut wm: u64 = old_np;
        let ghost free0 = fl2.free_seq();
        let a1 = fl2.allocate(1);
        let ghost fl_a1 = fl2;
        let p_leaf: u64 = match a1 {
            Some(p) => p,
            None => {
                let p = wm;
                wm = wm + 1;
                p
            },
        };
        let a2 = fl2.allocate(1);
        let p_fl: u64 = match a2 {
            Some(p) => p,
            None => {
                let p = wm;
                wm = wm + 1;
                p
            },
        };
        proof {
            assert(pre.spec_freelist().wf());
            if a1 is Some {
                assert(free0.contains((p_leaf + 0) as PageID));
                assert(pre.spec_freelist().free_has(p_leaf));
                assert(2 <= p_leaf < old_np);
                assert(p_leaf != old_root && p_leaf != old_fp);
                assert(!pre.spec_freelist().pending_has(p_leaf));
                assert(!fl_a1.free_has(p_leaf));
            } else {
                assert(p_leaf == old_np);
                assert forall|s: PageID| !free0.contains(s) by {
                    if free0.contains(s) {
                        assert(pre.spec_freelist().free_has(s));
                        assert forall|i: int| 0 <= i < 1 implies #[trigger] free0.contains(
                            (s + i) as PageID,
                        ) by {
                            assert(i == 0);
                            assert((s + 0) as PageID == s);
                        }
                        assert(run_available(free0, s, 1));
                        assert(run_available(pre.spec_freelist().free_seq(), s, 1));
                        assert(!run_available(pre.spec_freelist().free_seq(), s, 1));
                    }
                }
            }
            if a2 is Some {
                assert(fl_a1.free_seq().contains((p_fl + 0) as PageID));
                assert(fl_a1.free_has(p_fl));
                assert(pre.spec_freelist().free_has(p_fl));
                assert(2 <= p_fl < old_np);
                assert(p_fl != old_root && p_fl != old_fp);
                assert(!pre.spec_freelist().pending_has(p_fl));
                assert(a1 is Some ==> p_fl != p_leaf);
                assert(a1 is None ==> false);
                assert(!fl2.free_has(p_fl));
            } else {
                if a1 is Some {
                    assert(p_fl == old_np);
                    assert(p_leaf < old_np);
                } else {
                    assert(p_leaf == old_np && p_fl == old_np + 1);
                }
            }
            assert(p_leaf != p_fl);
            assert(2 <= p_leaf && 2 <= p_fl);
            assert(p_leaf != old_root && p_leaf != old_fp);
            assert(p_fl != old_root && p_fl != old_fp);
            assert(p_leaf < wm && p_fl < wm);
            assert forall|p: PageID| #[trigger] fl2.free_has(p) implies pre.spec_freelist().free_has(
                p,
            ) && p != p_leaf && p != p_fl by {
                if a2 is Some {
                    assert(fl_a1.free_has(p));
                }
                if a1 is Some {
                    assert(fl_a1.free_has(p) ==> pre.spec_freelist().free_has(p));
                }
            }
            assert(!fl2.free_has(p_leaf) && !fl2.free_has(p_fl));
            assert(fl2.pending_seq() == pre.spec_freelist().pending_seq());
            assert forall|p: PageID| #[trigger] fl2.pending_has(p) implies pre.spec_freelist().pending_has(
                p,
            ) by {
                let t = choose|t: u64| fl2.pending_seq().contains((t, p));
                assert(pre.spec_freelist().pending_seq().contains((t, p)));
            }
            assert(!fl2.pending_has(p_leaf) && !fl2.pending_has(p_fl)) by {
                if fl2.pending_has(p_leaf) {
                    assert(pre.spec_freelist().pending_has(p_leaf));
                    if a1 is Some {
                        assert(!pre.spec_freelist().pending_has(p_leaf));
                    } else {
                        let t = choose|t: u64|
                            pre.spec_freelist().pending_seq().contains((t, p_leaf));
                        assert(pre.spec_freelist().pending_has_under(t, p_leaf));
                        assert(p_leaf < pre.spec_meta().num_pages);
                    }
                }
                if fl2.pending_has(p_fl) {
                    assert(pre.spec_freelist().pending_has(p_fl));
                    if a2 is Some {
                        assert(!pre.spec_freelist().pending_has(p_fl));
                    } else {
                        let t = choose|t: u64|
                            pre.spec_freelist().pending_seq().contains((t, p_fl));
                        assert(pre.spec_freelist().pending_has_under(t, p_fl));
                        assert(p_fl < pre.spec_meta().num_pages);
                    }
                }
            }
        }
        let mut freed: Vec<u64> = Vec::new();
        freed.push(old_root);
        freed.push(old_fp);
        proof {
            assert(freed@.len() == 2 && freed@[0] == old_root && freed@[1] == old_fp);
            assert(freed@.no_duplicates());
            assert forall|p: u64| freed@.contains(p) implies !fl2.free_has(p) by {
                let ix = choose|ix: int| 0 <= ix < freed@.len() && freed@[ix] == p;
                assert(p == old_root || p == old_fp);
                if fl2.free_has(p) {
                    assert(pre.spec_freelist().free_has(p));
                }
            }
            assert forall|p: u64| freed@.contains(p) implies !fl2.pending_has(p) by {
                let ix = choose|ix: int| 0 <= ix < freed@.len() && freed@[ix] == p;
                assert(p == old_root || p == old_fp);
                if fl2.pending_has(p) {
                    assert(pre.spec_freelist().pending_has(p));
                    let t = choose|t: u64| pre.spec_freelist().pending_seq().contains((t, p));
                    assert(pre.spec_freelist().pending_has_under(t, p));
                }
            }
        }
        let ghost fl_alloc = fl2;
        fl2.free(new_id, &freed);
        let ghost fl_mid = fl2;
        let min_open = self.min_open_id(new_id);
        proof {
            if self.open_ro_txs.len() > 0 {
                let kx = choose|kx: int|
                    0 <= kx < self.open_ro_txs@.len() && self.open_ro_txs@[kx] == min_open;
                assert(self.reader_ok(min_open));
                assert(min_open <= self.meta@.tx_id);
            }
            assert(min_open <= new_id);
        }
        fl2.release_pending(min_open);
        let free_after = fl2.free_pages();
        let free_len = free_after.len();
        proof {
            assert(fl_mid.free_seq().len() == fl_alloc.free_seq().len());
            assert(fl_alloc.free_seq().len() <= pre.spec_freelist().free_seq().len());
            assert(fl_mid.pending_seq().len() == pre.spec_freelist().pending_seq().len() + 2);
            assert(fl2.free_seq().len() <= pre.spec_freelist().free_seq().len()
                + pre.spec_freelist().pending_seq().len() + 2);
        }
        if free_len > (psu - PAGE_HDR_SIZE) / 8 {
            self.writer_open = false;
            proof {
                assert(8 * ((psu - PAGE_HDR_SIZE) / 8) + 7 >= psu - PAGE_HDR_SIZE) by (nonlinear_arith)
                    requires
                        psu >= PAGE_HDR_SIZE,
                ;
                assert(PAGE_HDR_SIZE + 8 * free_len > psu);
                assert(PAGE_HDR_SIZE + 8 * (pre.spec_freelist().free_seq().len()
                    + pre.spec_freelist().pending_seq().len() + 2) > pre.spec_pagesize());
            }
            return Err(Error::PayloadTooLarge);
        }
        let fl_payload = encode_ids(free_after);
        proof {
            crate::node::lemma_enc_ids_len(fl2.free_seq());
            assert(fl_payload@.len() <= psu - PAGE_HDR_SIZE);
        }
        let cur_len = self.pages.len();
        let ghost pre_pages = self.pages@;
        if wm > cur_len as u64 {
            let min_ap_raw = MIN_ALLOC_SIZE / ps;
            proof {
                assert(MIN_ALLOC_SIZE / ps <= 8192) by (nonlinear_arith)
                    requires
                        ps >= 1024,
                ;
                assert(wm <= old_np + 2);
                assert(cur_len as u64 <= old_np + 1);
            }
            let min_ap: u64 = if min_ap_raw == 0 {
                1
            } else {
                min_ap_raw
            };
            let target: u64 = if wm > cur_len as u64 + min_ap {
                wm
            } else {
                cur_len as u64 + min_ap
            };
            proof {
                assert(target <= old_np + 8193);
                assert(target <= usize::MAX);
            }
            while (self.pages.len() as u64) < target
                invariant
                    psu == pre.spec_pagesize(),
                    target <= usize::MAX,
                    self.pages@.len() >= pre_pages.len(),
                    forall|j: int| 0 <= j < pre_pages.len() ==> self.pages@[j] == pre_pages[j],
                    forall|j: int|
                        0 <= j < self.pages@.len() ==> (#[trigger] self.pages@[j])@.len() == psu,
                    *self == (DB { pages: self.pages, ..pre }),
                decreases target - self.pages.len(),
            {
                self.pages.push(zero_page(psu));
            }
            proof {
                assert(self.pages@.len() >= target);
                assert(self.pages@.len() >= pre_pages.len() + min_ap);
            }
        }
        proof {
            assert(wm <= self.pages@.len());
            assert(p_leaf < wm && p_fl < wm);
        }
        let mut lp = zero_page(psu);
        splice(&mut lp, PAGE_HDR_SIZE, &payload);
        write_hdr(
            &mut lp,
            PageHdr {
                id: p_leaf,
                page_type: PAGE_TYPE_LEAF,
                count: tx.entries.len() as u64,
                overflow: 0,
            },
        );
        proof {
            assert(entries_view(tx.entries@).len() == tx.entries@.len());
            assert(lp@.subrange(PAGE_HDR_SIZE as int, PAGE_HDR_SIZE + payload@.len()) =~= payload@);
            assert(leaf_encodes(lp@, tx.view()));
        }
        let mut fpg = zero_page(psu);
        splice(&mut fpg, PAGE_HDR_SIZE, &fl_payload);
        write_hdr(
            &mut fpg,
            PageHdr {
                id: p_fl,
                page_type: PAGE_TYPE_FREELIST,
                count: free_len as u64,
                overflow: 0,
            },
        );
        proof {
            assert(fpg@.subrange(PAGE_HDR_SIZE as int, PAGE_HDR_SIZE + fl_payload@.len())
                =~= fl_payload@);
            assert(fl_encodes(fpg@, fl2.free_seq()));
        }
        self.pages.set(p_leaf as usize, lp);
        self.pages.set(p_fl as usize, fpg);
        let other_slot: u32 = 1 - self.meta.meta_page;
        let mut nm = Meta {
            meta_page: other_slot,
            magic: MAGIC_VALUE,
            version: VERSION,
            pagesize: ps,
            root: BucketMeta { root_page: p_leaf, next_int: self.meta.root.next_int },
            num_pages: wm,
            freelist_page: p_fl,
            tx_id: new_id,
            hash: Vec::new(),
        };
        let h = nm.hash_self();
        nm.hash = h;
        let mut mp = zero_page(psu);
        write_meta_page(&mut mp, &nm, other_slot as u64);
        self.pages.set(other_slot as usize, mp);
        let ghost old_meta = self.meta@;
        self.meta = nm;
        self.freelist = fl2;
        self.committed = Ghost(tx.view());
        self.writer_open = false;
        proof {
            let m = self.meta@;
            assert(m.meta_page < 2);
            assert(spec_valid(m));
            assert(parse_meta(self.pages@[m.meta_page as int]@) == m);
            assert(self.pages@[1 - m.meta_page as int]@ == pre.spec_pages()[
                pre.spec_meta().meta_page as int
            ]@);
            assert(parse_meta(self.pages@[1 - m.meta_page as int]@) == old_meta);
            assert(leaf_encodes(self.pages@[m.root.root_page as int]@, self.committed@));
            assert(fl_encodes(self.pages@[m.freelist_page as int]@, self.freelist.free_seq()));
            assert forall|p: PageID| #[trigger] self.freelist.free_has(p) implies 2 <= p
                < m.num_pages && p != m.root.root_page && p != m.freelist_page by {
                if fl_mid.free_has(p) {
                    assert(fl_alloc.free_has(p));
                    assert(pre.spec_freelist().free_has(p));
                } else {
                    let t = choose|t: u64| t < min_open && fl_mid.pending_has_under(t, p);
                    assert(t != new_id);
                    assert(pre.spec_freelist().pending_has_under(t, p));
                }
            }
            assert forall|t: u64, p: PageID|
                #[trigger] self.freelist.pending_has_under(t, p) implies 2 <= p < m.num_pages && p
                != m.root.root_page && p != m.freelist_page && t <= m.tx_id by {
                assert(fl_mid.pending_has_under(t, p));
                if t == new_id && freed@.contains(p) {
                    assert(p == old_root || p == old_fp);
                } else {
                    assert(pre.spec_freelist().pending_has_under(t, p));
                }
            }
            assert forall|k: int|
                0 <= k < self.open_ro_txs@.len() implies self.reader_ok(
                #[trigger] self.open_ro_txs@[k]) by {
                let id = self.open_ro_txs@[k];
                assert(pre.reader_ok(pre.readers()[k]));
                let s0 = self.snaps@[id];
                assert(2 <= s0.root < pre.spec_meta().num_pages);
                assert(self.pages@[s0.root as int]@ == pre.spec_pages()[s0.root as int]@);
                assert(id < m.tx_id);
                if id == pre.spec_meta().tx_id {
                    assert(s0.root == old_root);
                    assert(fl_mid.pending_has_under(new_id, old_root));
                    assert(self.freelist.pending_has_under(new_id, s0.root));
                } else {
                    let t0 = choose|t0: u64|
                        t0 > id && #[trigger] pre.spec_freelist().pending_has_under(t0, s0.root);
                    assert(fl_mid.pending_has_under(t0, s0.root));
                    assert(t0 >= min_open);
                    assert(self.freelist.pending_has_under(t0, s0.root));
                }
                assert(!self.freelist.free_has(s0.root)) by {
                    if self.freelist.free_has(s0.root) {
                        if fl_mid.free_has(s0.root) {
                            assert(pre.spec_freelist().free_has(s0.root));
                        } else {
                            let t = choose|t: u64|
                                t < min_open && fl_mid.pending_has_under(t, s0.root);
                            assert(t != new_id);
                            assert(pre.spec_freelist().pending_has_under(t, s0.root));
                            if id == pre.spec_meta().tx_id {
                                assert(!pre.spec_freelist().pending_has(s0.root));
                                assert(false);
                            } else {
                                let t0 = choose|t0: u64|
                                    t0 > id && #[trigger] pre.spec_freelist().pending_has_under(
                                        t0,
                                        s0.root,
                                    );
                                let ix1 = choose|ix1: int|
                                    0 <= ix1 < pre.spec_freelist().pending_seq().len()
                                        && pre.spec_freelist().pending_seq()[ix1] == (t, s0.root);
                                let ix2 = choose|ix2: int|
                                    0 <= ix2 < pre.spec_freelist().pending_seq().len()
                                        && pre.spec_freelist().pending_seq()[ix2] == (t0, s0.root);
                                if ix1 != ix2 {
                                    assert(pre.spec_freelist().pending_seq()[ix1].1
                                        != pre.spec_freelist().pending_seq()[ix2].1);
                                }
                                assert(t == t0);
                                assert(t0 >= min_open);
                                assert(false);
                            }
                        }
                    }
                }
            }
            assert(self.wf());
        }
        Ok(())
    }

    /// Run the read-only consistency check: both meta slots still
    /// select a valid record of the configured page size, and the
    /// committed root still carries a leaf page in range.
    pub fn check(&self) -> (r: Result<(), Error>)
        requires
            self.wf(),
        ensures
            r is Ok,
    {
        let h1 = read_hdr(&self.pages[0]);
        let h2 = read_hdr(&self.pages[1]);
        let m1 = read_meta_page(&self.pages[0]);
        let m2 = read_meta_page(&self.pages[1]);
        let v1 = h1.page_type == PAGE_TYPE_META && m1.valid();
        let v2 = h2.page_type == PAGE_TYPE_META && m2.valid();
        proof {
            let mp = self.meta@.meta_page as int;
            assert(parse_meta(self.pages@[mp]@) == self.meta@);
            assert(parse_hdr(self.pages@[mp]@).page_type == PAGE_TYPE_META);
            if mp == 0 {
                assert(v1);
            } else {
                assert(v2);
            }
        }
        let selected = select_by(v1, &m1, v2, &m2, self.pagesize);
        proof {
            let mp = self.meta@.meta_page as int;
            if mp == 0 {
                assert(v1 && m1@.pagesize == self.pagesize);
                if v2 {
                    assert(valid_meta_page(self.pages@[1]@));
                    assert(m2@.pagesize == self.pagesize);
                }
            } else {
                assert(v2 && m2@.pagesize == self.pagesize);
                if v1 {
                    assert(valid_meta_page(self.pages@[0]@));
                    assert(m1@.pagesize == self.pagesize);
                }
            }
            assert(spec_select_v(v1, m1@, v2, m2@) is Some);
            assert(selected is Ok);
        }
        if selected.is_err() {
            return Err(Error::BadImage);
        }
        let root = self.meta.root.root_page;
        let plen: usize = self.pages.len();
        proof {
            assert(root < self.meta@.num_pages <= plen);
            assert(leaf_encodes(self.pages@[root as int]@, self.committed@));
        }
        let hdr = read_hdr(&self.pages[root as usize]);
        proof {
            assert(hdr == parse_hdr(self.pages@[root as int]@));
        }
        if hdr.page_type != PAGE_TYPE_LEAF {
            return Err(Error::BadImage);
        }
        Ok(())
    }
}

/// Idempotent open: one leaf page determines one set of contents. Any
/// two entry lists with representable lengths that the same page
/// encodes are the same list, so two openings of one image see the
/// same root bucket contents.
pub proof fn lemma_leaf_contents_unique(
    p: Seq<u8>,
    es1: Seq<(Seq<u8>, Seq<u8>)>,
    es2: Seq<(Seq<u8>, Seq<u8>)>,
)
    requires
        leaf_encodes(p, es1),
        leaf_encodes(p, es2),
        crate::node::entries_len_ok(es1),
        crate::node::entries_len_ok(es2),
    ensures
        es1 == es2,
{
    let c = p.skip(PAGE_HDR_SIZE as int);
    let l1 = enc_entries(es1).len() as int;
    let l2 = enc_entries(es2).len() as int;
    assert(c.subrange(0, l1) =~= p.subrange(PAGE_HDR_SIZE as int, PAGE_HDR_SIZE + l1)) by {
        assert forall|j: int| 0 <= j < l1 implies c.subrange(0, l1)[j] == p.subrange(
            PAGE_HDR_SIZE as int,
            PAGE_HDR_SIZE + l1,
        )[j] by {}
    }
    assert(c.subrange(0, l2) =~= p.subrange(PAGE_HDR_SIZE as int, PAGE_HDR_SIZE + l2)) by {
        assert forall|j: int| 0 <= j < l2 implies c.subrange(0, l2)[j] == p.subrange(
            PAGE_HDR_SIZE as int,
            PAGE_HDR_SIZE + l2,
        )[j] by {}
    }
    assert(es1.len() == parse_hdr(p).count);
    assert(es2.len() == parse_hdr(p).count);
    crate::node::lemma_enc_prefix_injective(c, es1, es2);
}

/// Read the value under `key` in decoded entries.
fn get_in(es: &Vec<KV>, key: &Vec<u8>) -> (r: Option<Vec<u8>>)
    ensures
        match r {
            Some(v) => crate::bucket::lookup(entries_view(es@), key@) == Some(v@),
            None => crate::bucket::lookup(entries_view(es@), key@) is None,
        },
{
    match find_key(es, key) {
        Some(j) => {
            proof {
                crate::bucket::lemma_lookup_first(entries_view(es@), j as int, key@);
            }
            let v = vstd::slice::slice_to_vec(es[j].1.as_slice());
            Some(v)
        },
        None => {
            proof {
                crate::bucket::lemma_lookup_no_key(entries_view(es@), key@);
            }
            None
        },
    }
}

} // verus!
