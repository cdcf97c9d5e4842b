//! Leaf and freelist page payload codecs: length-prefixed key/value
//! entries and flat page-id lists, encoded into a page's data region
//! behind the header.

use vstd::prelude::*;
use vstd::bytes::{spec_u64_to_le_bytes, spec_u64_from_le_bytes};
use vstd::bytes::u64_to_le_bytes;
use vstd::slice::{slice_subrange, slice_to_vec};
use crate::bytes_codec::get_u64;

verus! {

broadcast use vstd::seq_lib::lemma_seq_contains_after_push, vstd::seq_lib::lemma_seq_concat_contains_all_elements;

/// One key/value pair.
pub type KV = (Vec<u8>, Vec<u8>);

/// The mathematical image of a sequence of entries.
pub open spec fn entries_view(s: Seq<KV>) -> Seq<(Seq<u8>, Seq<u8>)> {
    s.map_values(|e: KV| (e.0@, e.1@))
}

/// The encoding of one entry: key length, value length, key, value.
pub open spec fn enc_entry(e: (Seq<u8>, Seq<u8>)) -> Seq<u8> {
    spec_u64_to_le_bytes(e.0.len() as u64) + spec_u64_to_le_bytes(e.1.len() as u64) + e.0 + e.1
}

/// The encoding of a sequence of entries, in order.
pub open spec fn enc_entries(es: Seq<(Seq<u8>, Seq<u8>)>) -> Seq<u8>
    decreases es.len(),
{
    if es.len() == 0 {
        Seq::empty()
    } else {
        enc_entry(es[0]) + enc_entries(es.drop_first())
    }
}

/// Entry lengths that a page codec can represent faithfully.
pub open spec fn entries_len_ok(es: Seq<(Seq<u8>, Seq<u8>)>) -> bool {
    forall|i: int|
        0 <= i < es.len() ==> (#[trigger] es[i]).0.len() <= u64::MAX && es[i].1.len() <= u64::MAX
}

/// Appending one entry appends its encoding.
pub proof fn lemma_enc_push(es: Seq<(Seq<u8>, Seq<u8>)>, e: (Seq<u8>, Seq<u8>))
    ensures
        enc_entries(es.push(e)) == enc_entries(es) + enc_entry(e),
    decreases es.len(),
{
    if es.len() == 0 {
        assert(es.push(e)[0] == e);
        assert(es.push(e).drop_first() =~= Seq::<(Seq<u8>, Seq<u8>)>::empty());
        assert(enc_entries(Seq::<(Seq<u8>, Seq<u8>)>::empty()) == Seq::<u8>::empty());
        assert(enc_entries(es.push(e)) =~= enc_entries(es) + enc_entry(e));
    } else {
        assert(es.push(e).drop_first() =~= es.drop_first().push(e));
        lemma_enc_push(es.drop_first(), e);
        assert(es.push(e)[0] == es[0]);
        assert(enc_entries(es.push(e)) == enc_entry(es[0]) + (enc_entries(es.drop_first())
            + enc_entry(e)));
        assert(enc_entry(es[0]) + (enc_entries(es.drop_first()) + enc_entry(e)) =~= (enc_entry(
            es[0],
        ) + enc_entries(es.drop_first())) + enc_entry(e));
    }
}

/// The encoding splits at any entry boundary.
pub proof fn lemma_enc_split(es: Seq<(Seq<u8>, Seq<u8>)>, i: int)
    requires
        0 <= i <= es.len(),
    ensures
        enc_entries(es) == enc_entries(es.take(i)) + enc_entries(es.skip(i)),
    decreases i,
{
    if i == 0 {
        assert(es.take(0) =~= Seq::<(Seq<u8>, Seq<u8>)>::empty());
        assert(es.skip(0) =~= es);
        assert(enc_entries(es) =~= enc_entries(es.take(0)) + enc_entries(es.skip(0)));
    } else {
        lemma_enc_split(es, i - 1);
        assert(es.take(i) =~= es.take(i - 1).push(es[i - 1]));
        lemma_enc_push(es.take(i - 1), es[i - 1]);
        assert(es.skip(i - 1)[0] == es[i - 1]);
        assert(es.skip(i - 1).drop_first() =~= es.skip(i));
        assert(enc_entries(es.skip(i - 1)) == enc_entry(es[i - 1]) + enc_entries(es.skip(i)));
        assert(enc_entries(es.take(i - 1)) + (enc_entry(es[i - 1]) + enc_entries(es.skip(i))) =~= (
        enc_entries(es.take(i - 1)) + enc_entry(es[i - 1])) + enc_entries(es.skip(i)));
    }
}

/// Encode the entries, in order, as one byte vector.
pub fn encode_entries(es: &Vec<KV>) -> (out: Vec<u8>)
    ensures
        out@ == enc_entries(entries_view(es@)),
{
    let mut out: Vec<u8> = Vec::new();
    let n = es.len();
    let mut i: usize = 0;
    proof {
        assert(entries_view(es@).take(0) =~= Seq::<(Seq<u8>, Seq<u8>)>::empty());
    }
    while i < n
        invariant
            n == es@.len(),
            0 <= i <= n,
            out@ == enc_entries(entries_view(es@).take(i as int)),
        decreases n - i,
    {
        let ghost evs = entries_view(es@);
        let ghost pre_out = out@;
        let key = &es[i].0;
        let val = &es[i].1;
        let mut kl = u64_to_le_bytes(key.len() as u64);
        let mut vl = u64_to_le_bytes(val.len() as u64);
        out.append(&mut kl);
        out.append(&mut vl);
        let mut kb = slice_to_vec(key.as_slice());
        let mut vb = slice_to_vec(val.as_slice());
        out.append(&mut kb);
        out.append(&mut vb);
        proof {
            assert(evs[i as int] == (key@, val@));
            assert(out@ =~= pre_out + enc_entry(evs[i as int]));
            assert(evs.take(i + 1) =~= evs.take(i as int).push(evs[i as int]));
            lemma_enc_push(evs.take(i as int), evs[i as int]);
        }
        i = i + 1;
    }
    proof {
        assert(entries_view(es@).take(n as int) =~= entries_view(es@));
    }
    out
}

/// Decode `count` entries from `buf` starting at `off0`, where that
/// region holds the encoding of the entries `es`.
pub fn decode_entries(buf: &Vec<u8>, off0: usize, count: u64, Ghost(es): Ghost<
    Seq<(Seq<u8>, Seq<u8>)>,
>) -> (out: Vec<KV>)
    requires
        count == es.len(),
        off0 + enc_entries(es).len() <= buf@.len(),
        buf@.subrange(off0 as int, off0 + enc_entries(es).len()) == enc_entries(es),
    ensures
        entries_view(out@) == es,
{
    let blen: usize = buf.len();
    let mut out: Vec<KV> = Vec::new();
    let mut off: usize = off0;
    let mut i: u64 = 0;
    proof {
        assert(es.take(0) =~= Seq::<(Seq<u8>, Seq<u8>)>::empty());
        assert(entries_view(Seq::<KV>::empty()) =~= Seq::<(Seq<u8>, Seq<u8>)>::empty());
    }
    while i < count
        invariant
            count == es.len(),
            0 <= i <= count,
            blen == buf@.len(),
            off0 + enc_entries(es).len() <= blen,
            buf@.subrange(off0 as int, off0 + enc_entries(es).len()) == enc_entries(es),
            off == off0 + enc_entries(es.take(i as int)).len(),
            entries_view(out@) == es.take(i as int),
        decreases count - i,
    {
        let ghost e = es[i as int];
        let ghost total = enc_entries(es).len() as int;
        let ghost eskip = enc_entries(es.skip(i as int));
        proof {
            lemma_enc_split(es, i as int);
            assert(es.skip(i as int)[0] == e);
            assert(es.skip(i as int).drop_first() =~= es.skip(i + 1));
            assert(eskip == enc_entry(e) + enc_entries(es.skip(i + 1)));
            vstd::bytes::lemma_auto_spec_u64_to_from_le_bytes();
            assert(enc_entry(e).len() == 16 + e.0.len() + e.1.len());
            assert(off - off0 + eskip.len() == total);
            assert(enc_entries(es).subrange(off - off0, total) =~= eskip);
            crate::bytes_codec::lemma_subrange_shift(
                buf@,
                off0 as int,
                off0 + total,
                enc_entries(es),
                off - off0,
                total,
            );
            assert(buf@.subrange(off as int, off0 + total) == eskip);
            crate::bytes_codec::lemma_subrange_shift(buf@, off as int, off0 + total, eskip, 0, 8);
            assert(eskip.subrange(0, 8) =~= spec_u64_to_le_bytes(e.0.len() as u64));
            crate::bytes_codec::lemma_subrange_shift(buf@, off as int, off0 + total, eskip, 8, 16);
            assert(eskip.subrange(8, 16) =~= spec_u64_to_le_bytes(e.1.len() as u64));
        }
        let klen64 = get_u64(buf, off);
        let vlen64 = get_u64(buf, off + 8);
        proof {
            assert(klen64 == e.0.len());
            assert(vlen64 == e.1.len());
            assert(off + 16 + e.0.len() + e.1.len() <= off0 + total);
        }
        let klen: usize = klen64 as usize;
        let vlen: usize = vlen64 as usize;
        proof {
            crate::bytes_codec::lemma_subrange_shift(
                buf@,
                off as int,
                off0 + total,
                eskip,
                16,
                16 + klen as int,
            );
            assert(eskip.subrange(16, 16 + e.0.len() as int) =~= e.0);
            crate::bytes_codec::lemma_subrange_shift(
                buf@,
                off as int,
                off0 + total,
                eskip,
                16 + klen as int,
                16 + klen as int + vlen as int,
            );
            assert(eskip.subrange(16 + e.0.len() as int, 16 + e.0.len() as int + e.1.len() as int) =~= e.1);
        }
        let key = slice_to_vec(slice_subrange(buf.as_slice(), off + 16, off + 16 + klen));
        let val = slice_to_vec(
            slice_subrange(buf.as_slice(), off + 16 + klen, off + 16 + klen + vlen),
        );
        proof {
            assert(key@ == e.0);
            assert(val@ == e.1);
        }
        let ghost pre_out = out@;
        out.push((key, val));
        proof {
            assert(entries_view(out@) =~= entries_view(pre_out).push((key@, val@)));
            assert(es.take(i + 1) =~= es.take(i as int).push(e));
            assert(entries_view(out@) =~= es.take(i + 1));
            assert(es.take(i + 1).take(i as int) =~= es.take(i as int));
            lemma_enc_push(es.take(i as int), e);
        }
        off = off + 16 + klen + vlen;
        i = i + 1;
    }
    proof {
        assert(es.take(count as int) =~= es);
    }
    out
}

/// The encoding of a list of page ids, eight bytes each.
pub open spec fn enc_ids(ids: Seq<u64>) -> Seq<u8>
    decreases ids.len(),
{
    if ids.len() == 0 {
        Seq::empty()
    } else {
        spec_u64_to_le_bytes(ids[0]) + enc_ids(ids.drop_first())
    }
}

/// Appending one id appends its eight bytes.
pub proof fn lemma_enc_ids_push(ids: Seq<u64>, x: u64)
    ensures
        enc_ids(ids.push(x)) == enc_ids(ids) + spec_u64_to_le_bytes(x),
    decreases ids.len(),
{
    if ids.len() == 0 {
        assert(ids.push(x)[0] == x);
        assert(ids.push(x).drop_first() =~= Seq::<u64>::empty());
        assert(enc_ids(Seq::<u64>::empty()) == Seq::<u8>::empty());
        assert(enc_ids(ids.push(x)) =~= enc_ids(ids) + spec_u64_to_le_bytes(x));
    } else {
        assert(ids.push(x).drop_first() =~= ids.drop_first().push(x));
        lemma_enc_ids_push(ids.drop_first(), x);
        assert(ids.push(x)[0] == ids[0]);
        assert(enc_ids(ids.push(x)) == spec_u64_to_le_bytes(ids[0]) + (enc_ids(ids.drop_first())
            + spec_u64_to_le_bytes(x)));
        assert(spec_u64_to_le_bytes(ids[0]) + (enc_ids(ids.drop_first()) + spec_u64_to_le_bytes(x))
            =~= (spec_u64_to_le_bytes(ids[0]) + enc_ids(ids.drop_first())) + spec_u64_to_le_bytes(
            x,
        ));
    }
}

/// Eight bytes for each id.
pub proof fn lemma_enc_ids_len(ids: Seq<u64>)
    ensures
        enc_ids(ids).len() == 8 * ids.len(),
    decreases ids.len(),
{
    vstd::bytes::lemma_auto_spec_u64_to_from_le_bytes();
    if ids.len() > 0 {
        lemma_enc_ids_len(ids.drop_first());
    }
}

/// The encoding splits at any id boundary.
pub proof fn lemma_enc_ids_split(ids: Seq<u64>, i: int)
    requires
        0 <= i <= ids.len(),
    ensures
        enc_ids(ids) == enc_ids(ids.take(i)) + enc_ids(ids.skip(i)),
    decreases i,
{
    if i == 0 {
        assert(ids.take(0) =~= Seq::<u64>::empty());
        assert(ids.skip(0) =~= ids);
        assert(enc_ids(ids) =~= enc_ids(ids.take(0)) + enc_ids(ids.skip(0)));
    } else {
        lemma_enc_ids_split(ids, i - 1);
        assert(ids.take(i) =~= ids.take(i - 1).push(ids[i - 1]));
        lemma_enc_ids_push(ids.take(i - 1), ids[i - 1]);
        assert(ids.skip(i - 1)[0] == ids[i - 1]);
        assert(ids.skip(i - 1).drop_first() =~= ids.skip(i));
        assert(enc_ids(ids.skip(i - 1)) == spec_u64_to_le_bytes(ids[i - 1]) + enc_ids(ids.skip(i)));
        assert(enc_ids(ids.take(i - 1)) + (spec_u64_to_le_bytes(ids[i - 1]) + enc_ids(ids.skip(i)))
            =~= (enc_ids(ids.take(i - 1)) + spec_u64_to_le_bytes(ids[i - 1])) + enc_ids(
            ids.skip(i),
        ));
    }
}

/// Encode the page ids, in order, as one byte vector.
pub fn encode_ids(ids: &Vec<u64>) -> (out: Vec<u8>)
    ensures
        out@ == enc_ids(ids@),
{
    let mut out: Vec<u8> = Vec::new();
    let n = ids.len();
    let mut i: usize = 0;
    proof {
        assert(ids@.take(0) =~= Seq::<u64>::empty());
    }
    while i < n
        invariant
            n == ids@.len(),
            0 <= i <= n,
            out@ == enc_ids(ids@.take(i as int)),
        decreases n - i,
    {
        let ghost pre_out = out@;
        let mut b = u64_to_le_bytes(ids[i]);
        out.append(&mut b);
        proof {
            assert(ids@.take(i + 1) =~= ids@.take(i as int).push(ids@[i as int]));
            lemma_enc_ids_push(ids@.take(i as int), ids@[i as int]);
            assert(out@ =~= pre_out + spec_u64_to_le_bytes(ids@[i as int]));
        }
        i = i + 1;
    }
    proof {
        assert(ids@.take(n as int) =~= ids@);
    }
    out
}

/// Decode `count` page ids from `buf` starting at `off0`, where that
/// region holds the encoding of the ids `ids`.
pub fn decode_ids(buf: &Vec<u8>, off0: usize, count: u64, Ghost(ids): Ghost<Seq<u64>>) -> (out: Vec<
    u64,
>)
    requires
        count == ids.len(),
        off0 + enc_ids(ids).len() <= buf@.len(),
        buf@.subrange(off0 as int, off0 + enc_ids(ids).len()) == enc_ids(ids),
    ensures
        out@ == ids,
{
    let blen: usize = buf.len();
    let mut out: Vec<u64> = Vec::new();
    let mut i: u64 = 0;
    proof {
        assert(ids.take(0) =~= Seq::<u64>::empty());
        lemma_enc_ids_len(ids);
    }
    while i < count
        invariant
            count == ids.len(),
            0 <= i <= count,
            blen == buf@.len(),
            enc_ids(ids).len() == 8 * ids.len(),
            off0 + 8 * ids.len() <= blen,
            buf@.subrange(off0 as int, off0 + 8 * ids.len()) == enc_ids(ids),
            out@ == ids.take(i as int),
        decreases count - i,
    {
        proof {
            lemma_enc_ids_split(ids, i as int);
            lemma_enc_ids_len(ids.take(i as int));
            lemma_enc_ids_len(ids.skip(i as int));
            assert(ids.skip(i as int)[0] == ids[i as int]);
            assert(ids.skip(i as int).drop_first() =~= ids.skip(i + 1));
            assert(enc_ids(ids.skip(i as int)) == spec_u64_to_le_bytes(ids[i as int]) + enc_ids(
                ids.skip(i + 1),
            ));
            vstd::bytes::lemma_auto_spec_u64_to_from_le_bytes();
            assert(enc_ids(ids).subrange(8 * i, 8 * i + 8) =~= spec_u64_to_le_bytes(
                ids[i as int],
            ));
            crate::bytes_codec::lemma_subrange_shift(
                buf@,
                off0 as int,
                off0 + 8 * ids.len(),
                enc_ids(ids),
                8 * i,
                8 * i + 8,
            );
            assert(buf@.subrange(off0 + 8 * i, off0 + 8 * i + 8) == spec_u64_to_le_bytes(
                ids[i as int],
            ));
        }
        let off: usize = off0 + 8 * (i as usize);
        let x = get_u64(buf, off);
        proof {
            assert(x == ids[i as int]);
        }
        out.push(x);
        proof {
            assert(out@ =~= ids.take(i + 1));
        }
        i = i + 1;
    }
    proof {
        assert(ids.take(count as int) =~= ids);
    }
    out
}


/// If decoding has faithfully consumed `done` and some candidate list
/// `es` of greater length also encodes into the same region, then the
/// candidate agrees with `done` so far, and its next entry's length
/// prefixes and extent stand right at the current offset.
proof fn lemma_candidate_entry(
    buf: Seq<u8>,
    off0: int,
    limit: int,
    done: Seq<(Seq<u8>, Seq<u8>)>,
    es: Seq<(Seq<u8>, Seq<u8>)>,
)
    requires
        0 <= off0 <= limit <= buf.len(),
        done.len() < es.len(),
        entries_len_ok(done),
        entries_len_ok(es),
        off0 + enc_entries(done).len() <= limit,
        buf.subrange(off0, off0 + enc_entries(done).len()) == enc_entries(done),
        off0 + enc_entries(es).len() <= limit,
        buf.subrange(off0, off0 + enc_entries(es).len()) == enc_entries(es),
    ensures
        es.take(done.len() as int) == done,
        ({
            let off = off0 + enc_entries(done).len();
            let e = es[done.len() as int];
            &&& off + 16 + e.0.len() + e.1.len() <= limit
            &&& buf.subrange(off, off + 8) == spec_u64_to_le_bytes(e.0.len() as u64)
            &&& buf.subrange(off + 8, off + 16) == spec_u64_to_le_bytes(e.1.len() as u64)
        }),
{
    let i = done.len() as int;
    let c = buf.subrange(off0, limit);
    lemma_enc_split(es, i);
    let taken = es.take(i);
    assert(entries_len_ok(taken)) by {
        assert forall|j: int|
            0 <= j < taken.len() implies (#[trigger] taken[j]).0.len() <= u64::MAX
            && taken[j].1.len() <= u64::MAX by {
            assert(es[j].0.len() <= u64::MAX && es[j].1.len() <= u64::MAX);
        }
    }
    let ld = enc_entries(done).len() as int;
    let lt = enc_entries(taken).len() as int;
    assert(c.subrange(0, ld) =~= enc_entries(done)) by {
        assert forall|j: int| 0 <= j < ld implies c.subrange(0, ld)[j] == enc_entries(done)[j] by {
            assert(buf.subrange(off0, off0 + ld)[j] == enc_entries(done)[j]);
        }
    }
    assert(c.subrange(0, lt) =~= enc_entries(taken)) by {
        assert forall|j: int| 0 <= j < lt implies c.subrange(0, lt)[j] == enc_entries(taken)[j] by {
            assert(buf.subrange(off0, off0 + enc_entries(es).len())[j] == enc_entries(es)[j]);
            assert(enc_entries(es)[j] == (enc_entries(taken) + enc_entries(es.skip(i)))[j]);
        }
    }
    lemma_enc_prefix_injective(c, done, taken);
    assert(taken == done);
    let off = off0 + ld;
    let e = es[i];
    assert(es.skip(i)[0] == e);
    assert(es.skip(i).drop_first() =~= es.skip(i + 1));
    assert(enc_entries(es.skip(i)) == enc_entry(e) + enc_entries(es.skip(i + 1)));
    vstd::bytes::lemma_auto_spec_u64_to_from_le_bytes();
    assert(enc_entry(e).len() == 16 + e.0.len() + e.1.len());
    assert(off + 16 + e.0.len() + e.1.len() <= off0 + enc_entries(es).len());
    let eskip = enc_entries(es.skip(i));
    assert(enc_entries(es).subrange(ld, enc_entries(es).len() as int) =~= eskip);
    crate::bytes_codec::lemma_subrange_shift(
        buf,
        off0,
        off0 + enc_entries(es).len(),
        enc_entries(es),
        ld,
        enc_entries(es).len() as int,
    );
    assert(buf.subrange(off, off0 + enc_entries(es).len()) == eskip);
    crate::bytes_codec::lemma_subrange_shift(
        buf,
        off,
        off0 + enc_entries(es).len(),
        eskip,
        0,
        8,
    );
    assert(eskip.subrange(0, 8) =~= spec_u64_to_le_bytes(e.0.len() as u64));
    crate::bytes_codec::lemma_subrange_shift(
        buf,
        off,
        off0 + enc_entries(es).len(),
        eskip,
        8,
        16,
    );
    assert(eskip.subrange(8, 16) =~= spec_u64_to_le_bytes(e.1.len() as u64));
}

/// Decode `count` entries from `buf` starting at `off0`, checking
/// lengths as it goes: on success the consumed region is exactly the
/// encoding of the result.
pub fn decode_entries_checked(buf: &Vec<u8>, off0: usize, count: u64, limit: usize) -> (out:
    Option<Vec<KV>>)
    requires
        off0 <= limit <= buf@.len(),
    ensures
        match out {
            Some(es) => {
                &&& entries_view(es@).len() == count
                &&& off0 + enc_entries(entries_view(es@)).len() <= limit
                &&& buf@.subrange(
                    off0 as int,
                    off0 + enc_entries(entries_view(es@)).len(),
                ) == enc_entries(entries_view(es@))
            },
            None => forall|es: Seq<(Seq<u8>, Seq<u8>)>|
                #![auto]
                !(es.len() == count && entries_len_ok(es) && off0 + enc_entries(es).len() <= limit
                    && buf@.subrange(off0 as int, off0 + enc_entries(es).len()) == enc_entries(
                    es,
                )),
        },
        count == 0 ==> out is Some,
{
    let mut out: Vec<KV> = Vec::new();
    let mut off: usize = off0;
    let mut i: u64 = 0;
    proof {
        assert(entries_view(out@) =~= Seq::<(Seq<u8>, Seq<u8>)>::empty());
        assert(enc_entries(entries_view(out@)) =~= Seq::<u8>::empty());
        assert(buf@.subrange(off0 as int, off0 as int) =~= enc_entries(entries_view(out@)));
    }
    while i < count
        invariant
            0 <= i <= count,
            off0 <= limit <= buf@.len(),
            off0 <= off <= limit,
            entries_view(out@).len() == i,
            entries_len_ok(entries_view(out@)),
            off == off0 + enc_entries(entries_view(out@)).len(),
            buf@.subrange(off0 as int, off as int) == enc_entries(entries_view(out@)),
        decreases count - i,
    {
        let ghost done = entries_view(out@);
        if limit - off < 16 {
            proof {
                assert forall|es: Seq<(Seq<u8>, Seq<u8>)>|
                    #![auto]
                    !(es.len() == count && entries_len_ok(es) && off0 + enc_entries(es).len()
                        <= limit && buf@.subrange(off0 as int, off0 + enc_entries(es).len())
                        == enc_entries(es)) by {
                    if es.len() == count && entries_len_ok(es) && off0 + enc_entries(es).len()
                        <= limit && buf@.subrange(off0 as int, off0 + enc_entries(es).len())
                        == enc_entries(es) {
                        lemma_candidate_entry(buf@, off0 as int, limit as int, done, es);
                    }
                }
            }
            return None;
        }
        let klen64 = get_u64(buf, off);
        let vlen64 = get_u64(buf, off + 8);
        if klen64 > (limit - off - 16) as u64 {
            proof {
                vstd::bytes::lemma_auto_spec_u64_to_from_le_bytes();
                assert forall|es: Seq<(Seq<u8>, Seq<u8>)>|
                    #![auto]
                    !(es.len() == count && entries_len_ok(es) && off0 + enc_entries(es).len()
                        <= limit && buf@.subrange(off0 as int, off0 + enc_entries(es).len())
                        == enc_entries(es)) by {
                    if es.len() == count && entries_len_ok(es) && off0 + enc_entries(es).len()
                        <= limit && buf@.subrange(off0 as int, off0 + enc_entries(es).len())
                        == enc_entries(es) {
                        lemma_candidate_entry(buf@, off0 as int, limit as int, done, es);
                        let e = es[i as int];
                        assert(klen64 == e.0.len());
                        assert(off + 16 + e.0.len() <= limit);
                    }
                }
            }
            return None;
        }
        let klen: usize = klen64 as usize;
        if vlen64 > (limit - off - 16 - klen) as u64 {
            proof {
                vstd::bytes::lemma_auto_spec_u64_to_from_le_bytes();
                assert forall|es: Seq<(Seq<u8>, Seq<u8>)>|
                    #![auto]
                    !(es.len() == count && entries_len_ok(es) && off0 + enc_entries(es).len()
                        <= limit && buf@.subrange(off0 as int, off0 + enc_entries(es).len())
                        == enc_entries(es)) by {
                    if es.len() == count && entries_len_ok(es) && off0 + enc_entries(es).len()
                        <= limit && buf@.subrange(off0 as int, off0 + enc_entries(es).len())
                        == enc_entries(es) {
                        lemma_candidate_entry(buf@, off0 as int, limit as int, done, es);
                        let e = es[i as int];
                        assert(klen64 == e.0.len());
                        assert(vlen64 == e.1.len());
                        assert(off + 16 + e.0.len() + e.1.len() <= limit);
                    }
                }
            }
            return None;
        }
        let vlen: usize = vlen64 as usize;
        let key = slice_to_vec(slice_subrange(buf.as_slice(), off + 16, off + 16 + klen));
        let val = slice_to_vec(
            slice_subrange(buf.as_slice(), off + 16 + klen, off + 16 + klen + vlen),
        );
        let ghost pre_view = entries_view(out@);
        let ghost e = (key@, val@);
        out.push((key, val));
        proof {
            vstd::bytes::lemma_auto_spec_u64_to_from_le_bytes();
            assert(entries_view(out@) =~= pre_view.push(e));
            assert(e.0.len() == klen64 && e.1.len() == vlen64);
            assert(entries_len_ok(entries_view(out@))) by {
                assert forall|j: int|
                    0 <= j < entries_view(out@).len() implies (#[trigger] entries_view(
                    out@,
                )[j]).0.len() <= u64::MAX && entries_view(out@)[j].1.len() <= u64::MAX by {
                    if j < pre_view.len() {
                        assert(pre_view[j].0.len() <= u64::MAX && pre_view[j].1.len()
                            <= u64::MAX);
                    }
                }
            }
            lemma_enc_push(pre_view, e);
            assert(buf@.subrange(off as int, off + 8) =~= spec_u64_to_le_bytes(
                e.0.len() as u64,
            ));
            assert(buf@.subrange(off + 8, off + 16) =~= spec_u64_to_le_bytes(e.1.len() as u64));
            assert(enc_entry(e).len() == 16 + klen + vlen);
            assert(buf@.subrange(off as int, off + 16 + klen + vlen) =~= enc_entry(e));
            assert(buf@.subrange(off0 as int, off + 16 + klen + vlen) =~= enc_entries(
                entries_view(out@),
            ));
        }
        off = off + 16 + klen + vlen;
        i = i + 1;
    }
    Some(out)
}

/// Decode `count` page ids from `buf` starting at `off0`, checking
/// bounds: on success the consumed region is exactly the encoding of
/// the result.
pub fn decode_ids_checked(buf: &Vec<u8>, off0: usize, count: u64, limit: usize) -> (out: Option<
    Vec<u64>,
>)
    requires
        off0 <= limit <= buf@.len(),
    ensures
        match out {
            Some(ids) => {
                &&& ids@.len() == count
                &&& off0 + enc_ids(ids@).len() <= limit
                &&& buf@.subrange(off0 as int, off0 + enc_ids(ids@).len()) == enc_ids(ids@)
            },
            None => forall|ids: Seq<u64>|
                #![auto]
                !(ids.len() == count && off0 + enc_ids(ids).len() <= limit),
        },
        count == 0 ==> out is Some,
{
    let mut out: Vec<u64> = Vec::new();
    let mut off: usize = off0;
    let mut i: u64 = 0;
    proof {
        assert(enc_ids(out@) =~= Seq::<u8>::empty());
        assert(buf@.subrange(off0 as int, off0 as int) =~= enc_ids(out@));
    }
    while i < count
        invariant
            0 <= i <= count,
            off0 <= limit <= buf@.len(),
            off0 <= off <= limit,
            out@.len() == i,
            off == off0 + enc_ids(out@).len(),
            buf@.subrange(off0 as int, off as int) == enc_ids(out@),
        decreases count - i,
    {
        if limit - off < 8 {
            proof {
                assert forall|ids: Seq<u64>|
                    #![auto]
                    !(ids.len() == count && off0 + enc_ids(ids).len() <= limit) by {
                    if ids.len() == count && off0 + enc_ids(ids).len() <= limit {
                        lemma_enc_ids_len(ids);
                        lemma_enc_ids_len(out@);
                    }
                }
            }
            return None;
        }
        let x = get_u64(buf, off);
        let ghost pre = out@;
        out.push(x);
        proof {
            vstd::bytes::lemma_auto_spec_u64_to_from_le_bytes();
            lemma_enc_ids_push(pre, x);
            assert(buf@.subrange(off as int, off + 8) =~= spec_u64_to_le_bytes(x));
            assert(buf@.subrange(off0 as int, off + 8) =~= enc_ids(out@));
        }
        off = off + 8;
        i = i + 1;
    }
    Some(out)
}

/// One byte region determines one entry list: two encodings of equal
/// entry count that both sit at the front of the same bytes are
/// encodings of the same entries. Entry lengths must be faithfully
/// representable for the length prefixes to be read back exactly.
pub proof fn lemma_enc_prefix_injective(
    c: Seq<u8>,
    es1: Seq<(Seq<u8>, Seq<u8>)>,
    es2: Seq<(Seq<u8>, Seq<u8>)>,
)
    requires
        es1.len() == es2.len(),
        entries_len_ok(es1),
        entries_len_ok(es2),
        enc_entries(es1).len() <= c.len(),
        enc_entries(es2).len() <= c.len(),
        c.subrange(0, enc_entries(es1).len() as int) == enc_entries(es1),
        c.subrange(0, enc_entries(es2).len() as int) == enc_entries(es2),
    ensures
        es1 == es2,
    decreases es1.len(),
{
    vstd::bytes::lemma_auto_spec_u64_to_from_le_bytes();
    if es1.len() == 0 {
        assert(es1 =~= es2);
    } else {
        let e1 = es1[0];
        let e2 = es2[0];
        let l1 = enc_entries(es1).len() as int;
        let l2 = enc_entries(es2).len() as int;
        assert(enc_entries(es1) == enc_entry(e1) + enc_entries(es1.drop_first()));
        assert(enc_entries(es2) == enc_entry(e2) + enc_entries(es2.drop_first()));
        assert(enc_entry(e1).len() == 16 + e1.0.len() + e1.1.len());
        assert(enc_entry(e2).len() == 16 + e2.0.len() + e2.1.len());
        assert(c.subrange(0, 8) =~= spec_u64_to_le_bytes(e1.0.len() as u64)) by {
            assert forall|j: int| 0 <= j < 8 implies c.subrange(0, 8)[j] == spec_u64_to_le_bytes(
                e1.0.len() as u64,
            )[j] by {
                assert(c.subrange(0, l1)[j] == enc_entries(es1)[j]);
            }
        }
        assert(c.subrange(0, 8) =~= spec_u64_to_le_bytes(e2.0.len() as u64)) by {
            assert forall|j: int| 0 <= j < 8 implies c.subrange(0, 8)[j] == spec_u64_to_le_bytes(
                e2.0.len() as u64,
            )[j] by {
                assert(c.subrange(0, l2)[j] == enc_entries(es2)[j]);
            }
        }
        assert(spec_u64_from_le_bytes(spec_u64_to_le_bytes(e1.0.len() as u64)) == e1.0.len() as u64);
        assert(spec_u64_from_le_bytes(spec_u64_to_le_bytes(e2.0.len() as u64)) == e2.0.len() as u64);
        assert(e1.0.len() == e2.0.len());
        assert(c.subrange(8, 16) =~= spec_u64_to_le_bytes(e1.1.len() as u64)) by {
            assert forall|j: int| 0 <= j < 8 implies c.subrange(8, 16)[j] == spec_u64_to_le_bytes(
                e1.1.len() as u64,
            )[j] by {
                assert(c.subrange(0, l1)[8 + j] == enc_entries(es1)[8 + j]);
            }
        }
        assert(c.subrange(8, 16) =~= spec_u64_to_le_bytes(e2.1.len() as u64)) by {
            assert forall|j: int| 0 <= j < 8 implies c.subrange(8, 16)[j] == spec_u64_to_le_bytes(
                e2.1.len() as u64,
            )[j] by {
                assert(c.subrange(0, l2)[8 + j] == enc_entries(es2)[8 + j]);
            }
        }
        assert(e1.1.len() == e2.1.len());
        let kl = e1.0.len() as int;
        let vl = e1.1.len() as int;
        assert(e1.0 =~= e2.0) by {
            assert forall|j: int| 0 <= j < kl implies e1.0[j] == e2.0[j] by {
                assert(c.subrange(0, l1)[16 + j] == enc_entries(es1)[16 + j]);
                assert(c.subrange(0, l2)[16 + j] == enc_entries(es2)[16 + j]);
                assert(enc_entries(es1)[16 + j] == enc_entry(e1)[16 + j]);
                assert(enc_entries(es2)[16 + j] == enc_entry(e2)[16 + j]);
            }
        }
        assert(e1.1 =~= e2.1) by {
            assert forall|j: int| 0 <= j < vl implies e1.1[j] == e2.1[j] by {
                assert(c.subrange(0, l1)[16 + kl + j] == enc_entries(es1)[16 + kl + j]);
                assert(c.subrange(0, l2)[16 + kl + j] == enc_entries(es2)[16 + kl + j]);
                assert(enc_entries(es1)[16 + kl + j] == enc_entry(e1)[16 + kl + j]);
                assert(enc_entries(es2)[16 + kl + j] == enc_entry(e2)[16 + kl + j]);
            }
        }
        assert(e1 == e2);
        let el = 16 + kl + vl;
        let tail = c.skip(el);
        assert(entries_len_ok(es1.drop_first())) by {
            assert forall|i: int|
                0 <= i < es1.drop_first().len() implies (#[trigger] es1.drop_first()[i]).0.len()
                <= u64::MAX && es1.drop_first()[i].1.len() <= u64::MAX by {
                assert(es1[i + 1].0.len() <= u64::MAX && es1[i + 1].1.len() <= u64::MAX);
            }
        }
        assert(entries_len_ok(es2.drop_first())) by {
            assert forall|i: int|
                0 <= i < es2.drop_first().len() implies (#[trigger] es2.drop_first()[i]).0.len()
                <= u64::MAX && es2.drop_first()[i].1.len() <= u64::MAX by {
                assert(es2[i + 1].0.len() <= u64::MAX && es2[i + 1].1.len() <= u64::MAX);
            }
        }
        assert(tail.subrange(0, enc_entries(es1.drop_first()).len() as int) =~= enc_entries(
            es1.drop_first(),
        )) by {
            assert forall|j: int|
                0 <= j < enc_entries(es1.drop_first()).len() implies tail.subrange(
                0,
                enc_entries(es1.drop_first()).len() as int,
            )[j] == enc_entries(es1.drop_first())[j] by {
                assert(c.subrange(0, l1)[el + j] == enc_entries(es1)[el + j]);
                assert(enc_entries(es1)[el + j] == enc_entries(es1.drop_first())[j]);
            }
        }
        assert(tail.subrange(0, enc_entries(es2.drop_first()).len() as int) =~= enc_entries(
            es2.drop_first(),
        )) by {
            assert forall|j: int|
                0 <= j < enc_entries(es2.drop_first()).len() implies tail.subrange(
                0,
                enc_entries(es2.drop_first()).len() as int,
            )[j] == enc_entries(es2.drop_first())[j] by {
                assert(c.subrange(0, l2)[el + j] == enc_entries(es2)[el + j]);
                assert(enc_entries(es2)[el + j] == enc_entries(es2.drop_first())[j]);
            }
        }
        lemma_enc_prefix_injective(tail, es1.drop_first(), es2.drop_first());
        assert forall|j: int| 0 <= j < es1.len() implies es1[j] == es2[j] by {
            if j > 0 {
                assert(es1.drop_first()[j - 1] == es2.drop_first()[j - 1]);
            }
        }
        assert(es1 =~= es2);
    }
}

} // verus!
