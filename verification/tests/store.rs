use cowdb::db::{initial_image, OpenOptions, DB, Tx, DEFAULT_NUM_PAGES};
use cowdb::meta::{select_meta, read_meta_page, write_meta_page, Meta, BucketMeta, MAGIC_VALUE, VERSION};
use cowdb::freelist::Freelist;
use cowdb::node::{encode_entries, decode_entries_checked, encode_ids, decode_ids_checked};
use cowdb::page::{read_hdr, PAGE_TYPE_LEAF};
use cowdb::Error;

fn fresh_meta(slot: u32, tx_id: u64, pagesize: u64) -> Meta {
    let mut m = Meta {
        meta_page: slot,
        magic: MAGIC_VALUE,
        version: VERSION,
        pagesize,
        root: BucketMeta { root_page: 3, next_int: 0 },
        num_pages: 4,
        freelist_page: 2,
        tx_id,
        hash: Vec::new(),
    };
    let h = m.hash_self();
    m.hash = h;
    m
}

fn open_fresh(pagesize: u64, num_pages: usize) -> DB {
    let img = initial_image(pagesize, num_pages);
    OpenOptions::new()
        .pagesize(pagesize)
        .num_pages(num_pages)
        .open(img)
        .unwrap()
}

fn put(db: &mut DB, key: &[u8], val: &[u8]) {
    let mut tx: Tx = db.tx(true).unwrap();
    tx.put(key.to_vec(), val.to_vec()).unwrap();
    db.commit(tx).unwrap();
}

fn get(db: &DB, tx: &Tx, key: &[u8]) -> Option<Vec<u8>> {
    db.get(tx, &key.to_vec())
}

#[test]
fn meta_selection_higher_tx_wins() {
    let m1 = fresh_meta(0, 7, 4096);
    let m2 = fresh_meta(1, 3, 4096);
    let chosen = select_meta(&m1, &m2, 4096).unwrap();
    assert_eq!(chosen.tx_id, 7);
    assert_eq!(chosen.meta_page, 0);
    let chosen = select_meta(&m2, &m1, 4096).unwrap();
    assert_eq!(chosen.tx_id, 7);
}

#[test]
fn meta_selection_single_valid_wins() {
    let good = fresh_meta(0, 2, 4096);
    let mut bad = fresh_meta(1, 9, 4096);
    bad.hash = vec![0u8; 32];
    let chosen = select_meta(&good, &bad, 4096).unwrap();
    assert_eq!(chosen.tx_id, 2);
    let chosen = select_meta(&bad, &good, 4096).unwrap();
    assert_eq!(chosen.tx_id, 2);
}

#[test]
fn meta_selection_none_valid_fails() {
    let mut b1 = fresh_meta(0, 1, 4096);
    b1.hash = vec![1u8; 32];
    let mut b2 = fresh_meta(1, 2, 4096);
    b2.hash = vec![2u8; 32];
    assert!(matches!(select_meta(&b1, &b2, 4096), Err(Error::NoValidMeta)));
}

#[test]
fn meta_selection_pagesize_mismatch_fails() {
    let m1 = fresh_meta(0, 1, 2048);
    let m2 = fresh_meta(1, 2, 2048);
    assert!(matches!(select_meta(&m1, &m2, 4096), Err(Error::PagesizeMismatch)));
}

#[test]
fn checksum_catches_every_field_byte_flip() {
    let m = fresh_meta(0, 5, 4096);
    assert!(m.valid());
    let mut page = vec![0u8; 4096];
    write_meta_page(&mut page, &m, 0);
    // the record's hashed fields sit at bytes 25..85 of the page
    for off in 25..85 {
        let mut corrupt = page.clone();
        corrupt[off] ^= 0x01;
        let damaged = read_meta_page(&corrupt);
        assert!(!damaged.valid(), "flip at {} went unnoticed", off);
    }
    assert!(read_meta_page(&page).valid());
}

#[test]
fn initial_image_opens_empty_at_tx_zero() {
    let db = open_fresh(4096, 32);
    assert_eq!(db.pagesize(), 4096);
    assert_eq!(db.tx_id(), 0);
    assert_eq!(db.num_pages(), 4);
    assert!(db.check().is_ok());
}

#[test]
fn read_of_missing_key_is_none() {
    let mut db = open_fresh(4096, 32);
    let tx = db.tx(false).unwrap();
    assert_eq!(get(&db, &tx, b"nothing"), None);
    db.finish(tx);
}

#[test]
fn put_commit_get_round_trip() {
    let mut db = open_fresh(4096, 32);
    put(&mut db, b"a", b"1");
    assert_eq!(db.tx_id(), 1);
    let tx = db.tx(false).unwrap();
    assert_eq!(get(&db, &tx, b"a"), Some(b"1".to_vec()));
    db.finish(tx);
}

#[test]
fn delete_then_commit_makes_key_absent() {
    let mut db = open_fresh(4096, 32);
    put(&mut db, b"k", b"v");
    let mut tx = db.tx(true).unwrap();
    tx.delete(&b"k".to_vec()).unwrap();
    db.commit(tx).unwrap();
    let tx = db.tx(false).unwrap();
    assert_eq!(get(&db, &tx, b"k"), None);
    db.finish(tx);
}

#[test]
fn update_replaces_value() {
    let mut db = open_fresh(4096, 32);
    put(&mut db, b"k", b"old");
    put(&mut db, b"k", b"new");
    let tx = db.tx(false).unwrap();
    assert_eq!(get(&db, &tx, b"k"), Some(b"new".to_vec()));
    db.finish(tx);
}

#[test]
fn writer_sees_own_uncommitted_changes() {
    let mut db = open_fresh(4096, 32);
    let mut tx = db.tx(true).unwrap();
    tx.put(b"x".to_vec(), b"y".to_vec()).unwrap();
    assert_eq!(get(&db, &tx, b"x"), Some(b"y".to_vec()));
    db.rollback(tx);
    let tx = db.tx(false).unwrap();
    assert_eq!(get(&db, &tx, b"x"), None);
    db.finish(tx);
}

#[test]
fn meta_slot_alternates_per_commit() {
    let mut db = open_fresh(4096, 32);
    let first = db.meta_slot();
    put(&mut db, b"a", b"1");
    let second = db.meta_slot();
    put(&mut db, b"b", b"2");
    let third = db.meta_slot();
    assert_ne!(first, second);
    assert_eq!(first, third);
}

#[test]
fn snapshot_isolation_across_commits() {
    let mut db = open_fresh(4096, 32);
    put(&mut db, b"a", b"1");
    let reader = db.tx(false).unwrap();
    assert_eq!(reader.id(), 1);
    let mut wtx = db.tx(true).unwrap();
    wtx.delete(&b"a".to_vec()).unwrap();
    db.commit(wtx).unwrap();
    assert_eq!(db.tx_id(), 2);
    // the old reader still sees the pre-commit state
    assert_eq!(get(&db, &reader, b"a"), Some(b"1".to_vec()));
    // a fresh reader sees the new state
    let reader2 = db.tx(false).unwrap();
    assert_eq!(get(&db, &reader2, b"a"), None);
    // and the old reader is still unmoved
    assert_eq!(get(&db, &reader, b"a"), Some(b"1".to_vec()));
    db.finish(reader2);
    db.finish(reader);
}

#[test]
fn snapshot_survives_several_later_commits() {
    let mut db = open_fresh(4096, 32);
    put(&mut db, b"k", b"first");
    let reader = db.tx(false).unwrap();
    put(&mut db, b"k", b"second");
    put(&mut db, b"k", b"third");
    put(&mut db, b"other", b"x");
    assert_eq!(get(&db, &reader, b"k"), Some(b"first".to_vec()));
    db.finish(reader);
    let reader = db.tx(false).unwrap();
    assert_eq!(get(&db, &reader, b"k"), Some(b"third".to_vec()));
    db.finish(reader);
}

#[test]
fn freelist_defers_reuse_until_readers_close() {
    let mut fl = Freelist::new();
    fl.free(5, &vec![10, 11]);
    // a reader with snapshot id 3 is older than the freeing commit
    fl.release_pending(3);
    assert!(!fl.free_pages().contains(&10));
    assert!(!fl.free_pages().contains(&11));
    // once the oldest open snapshot postdates the freeing commit
    fl.release_pending(6);
    assert!(fl.free_pages().contains(&10));
    assert!(fl.free_pages().contains(&11));
}

#[test]
fn freelist_allocates_contiguous_runs() {
    let mut fl = Freelist::new();
    fl.init(vec![4, 5, 7, 9, 10, 11]);
    assert_eq!(fl.allocate(3), Some(9));
    assert!(!fl.free_pages().contains(&9));
    assert!(!fl.free_pages().contains(&10));
    assert!(!fl.free_pages().contains(&11));
    assert_eq!(fl.allocate(3), None);
    assert_eq!(fl.allocate(2), Some(4));
    assert_eq!(fl.allocate(1), Some(7));
    assert_eq!(fl.allocate(1), None);
}

#[test]
fn growth_extends_by_minimum_increment_and_keeps_data() {
    let mut db = open_fresh(1024, 4);
    let before = db.pages_ref().len();
    assert_eq!(before, 4);
    let reader_before = {
        put(&mut db, b"a", b"1");
        db.tx(false).unwrap()
    };
    let after = db.pages_ref().len();
    // one growth by at least 8 MiB worth of pages
    assert!(after >= before + (8 * 1024 * 1024) / 1024);
    assert!(db.num_pages() as usize <= after);
    put(&mut db, b"b", b"2");
    // the open reader's view stayed valid and correct across growth
    assert_eq!(get(&db, &reader_before, b"a"), Some(b"1".to_vec()));
    db.finish(reader_before);
    let tx = db.tx(false).unwrap();
    assert_eq!(get(&db, &tx, b"a"), Some(b"1".to_vec()));
    assert_eq!(get(&db, &tx, b"b"), Some(b"2".to_vec()));
    db.finish(tx);
}

#[test]
fn reopening_an_image_sees_the_same_contents() {
    let mut db = open_fresh(4096, 32);
    put(&mut db, b"a", b"1");
    put(&mut db, b"b", b"2");
    let image = db.pages_ref().clone();
    let mut db2 = OpenOptions::new().pagesize(4096).open(image.clone()).unwrap();
    let tx = db2.tx(false).unwrap();
    assert_eq!(get(&db2, &tx, b"a"), Some(b"1".to_vec()));
    assert_eq!(get(&db2, &tx, b"b"), Some(b"2".to_vec()));
    db2.finish(tx);
    // opening the same image twice yields the same contents both times
    let mut db3 = OpenOptions::new().pagesize(4096).open(image).unwrap();
    let tx = db3.tx(false).unwrap();
    assert_eq!(get(&db3, &tx, b"a"), Some(b"1".to_vec()));
    assert_eq!(get(&db3, &tx, b"b"), Some(b"2".to_vec()));
    db3.finish(tx);
    assert_eq!(db2.tx_id(), db3.tx_id());
}

#[test]
fn full_scenario_create_insert_delete() {
    let mut db = open_fresh(4096, 32);
    assert_eq!(db.tx_id(), 0);
    let slot0 = db.meta_slot();
    put(&mut db, b"a", b"1");
    assert_eq!(db.tx_id(), 1);
    assert_ne!(db.meta_slot(), slot0);
    let tx = db.tx(false).unwrap();
    assert_eq!(get(&db, &tx, b"a"), Some(b"1".to_vec()));
    db.finish(tx);
    let reader = db.tx(false).unwrap();
    let mut wtx = db.tx(true).unwrap();
    wtx.delete(&b"a".to_vec()).unwrap();
    db.commit(wtx).unwrap();
    assert_eq!(db.tx_id(), 2);
    assert_eq!(get(&db, &reader, b"a"), Some(b"1".to_vec()));
    let reader2 = db.tx(false).unwrap();
    assert_eq!(get(&db, &reader2, b"a"), None);
    db.finish(reader2);
    db.finish(reader);
}

#[test]
fn put_on_read_transaction_is_refused() {
    let mut db = open_fresh(4096, 32);
    let mut tx = db.tx(false).unwrap();
    assert_eq!(tx.put(b"a".to_vec(), b"1".to_vec()), Err(Error::ReadOnlyTx));
    assert_eq!(tx.delete(&b"a".to_vec()), Err(Error::ReadOnlyTx));
    db.finish(tx);
}

#[test]
fn second_writer_is_refused_until_first_ends() {
    let mut db = open_fresh(4096, 32);
    let wtx = db.tx(true).unwrap();
    match db.tx(true) {
        Err(Error::WriterActive) => {},
        other => panic!("expected WriterActive, got {:?}", other.map(|_| ())),
    }
    db.rollback(wtx);
    let wtx = db.tx(true).unwrap();
    db.rollback(wtx);
}

#[test]
fn oversized_payload_is_refused_and_state_kept() {
    let mut db = open_fresh(1024, 4);
    put(&mut db, b"a", b"1");
    let mut tx = db.tx(true).unwrap();
    tx.put(b"big".to_vec(), vec![7u8; 4096]).unwrap();
    assert_eq!(db.commit(tx), Err(Error::PayloadTooLarge));
    let tx = db.tx(false).unwrap();
    assert_eq!(get(&db, &tx, b"a"), Some(b"1".to_vec()));
    assert_eq!(get(&db, &tx, b"big"), None);
    db.finish(tx);
}

#[test]
fn corrupt_image_is_refused() {
    let mut img = initial_image(4096, 32);
    // damage both meta slots
    img[0][30] ^= 0xff;
    img[1][30] ^= 0xff;
    match OpenOptions::new().pagesize(4096).open(img) {
        Err(Error::NoValidMeta) => {},
        other => panic!("expected NoValidMeta, got {:?}", other.map(|_| ())),
    }
}

#[test]
fn wrong_pagesize_on_open_is_refused() {
    let img = initial_image(2048, 32);
    match OpenOptions::new().pagesize(4096).num_pages(32).open(img) {
        Err(Error::PagesizeMismatch) => {},
        other => panic!("expected PagesizeMismatch, got {:?}", other.map(|_| ())),
    }
}

#[test]
fn truncated_image_is_refused() {
    let mut img = initial_image(4096, 32);
    img.truncate(3);
    match OpenOptions::new().pagesize(4096).open(img) {
        Err(Error::BadImage) => {},
        other => panic!("expected BadImage, got {:?}", other.map(|_| ())),
    }
}

#[test]
fn entry_codec_round_trips() {
    let entries = vec![
        (b"alpha".to_vec(), b"1".to_vec()),
        (b"".to_vec(), b"empty key".to_vec()),
        (b"beta".to_vec(), Vec::new()),
    ];
    let bytes = encode_entries(&entries);
    let decoded = decode_entries_checked(&bytes, 0, 3, bytes.len()).unwrap();
    assert_eq!(decoded, entries);
    assert_eq!(decode_entries_checked(&bytes, 0, 4, bytes.len()), None);
}

#[test]
fn id_codec_round_trips() {
    let ids = vec![2u64, 99, u64::MAX, 0];
    let bytes = encode_ids(&ids);
    assert_eq!(bytes.len(), 32);
    let decoded = decode_ids_checked(&bytes, 0, 4, bytes.len()).unwrap();
    assert_eq!(decoded, ids);
    assert_eq!(decode_ids_checked(&bytes, 0, 5, bytes.len()), None);
}

#[test]
fn initial_image_layout_is_as_documented() {
    let img = initial_image(4096, 32);
    assert_eq!(img.len(), 32);
    for page in &img {
        assert_eq!(page.len(), 4096);
    }
    let m0 = read_meta_page(&img[0]);
    let m1 = read_meta_page(&img[1]);
    assert!(m0.valid() && m1.valid());
    assert_eq!((m0.tx_id, m1.tx_id), (0, 0));
    assert_eq!((m0.meta_page, m1.meta_page), (0, 1));
    assert_eq!(m0.root.root_page, 3);
    assert_eq!(m0.freelist_page, 2);
    assert_eq!(m0.num_pages, 4);
    let leaf = read_hdr(&img[3]);
    assert_eq!(leaf.page_type, PAGE_TYPE_LEAF);
    assert_eq!(leaf.count, 0);
}

#[test]
fn default_options_use_os_page_size_floor() {
    // the builder's defaults: at least the 1024-byte floor
    let img_default_pages = DEFAULT_NUM_PAGES;
    assert_eq!(img_default_pages, 32);
    let db = {
        let opts = OpenOptions::new();
        let img = initial_image(4096, 32);
        opts.pagesize(4096).open(img).unwrap()
    };
    assert_eq!(db.pagesize(), 4096);
}

#[test]
fn digest_is_32_bytes_and_depends_on_content() {
    let m1 = fresh_meta(0, 1, 4096);
    let m2 = fresh_meta(0, 2, 4096);
    assert_eq!(m1.hash_self().len(), 32);
    assert_eq!(m2.hash_self().len(), 32);
    assert_ne!(m1.hash_self(), m2.hash_self());
    assert_eq!(m1.hash_self(), m1.hash_self());
}
