//! The key-value model of a bucket's leaf contents: lookup, store and
//! delete over sequences of byte-string pairs, with the laws that the
//! transaction engine's contracts are stated against.

use vstd::prelude::*;

verus! {

/// The value stored under `k`, if any: the first entry whose key is
/// `k`.
pub open spec fn lookup(es: Seq<(Seq<u8>, Seq<u8>)>, k: Seq<u8>) -> Option<Seq<u8>>
    decreases es.len(),
{
    if es.len() == 0 {
        None
    } else if es[0].0 == k {
        Some(es[0].1)
    } else {
        lookup(es.drop_first(), k)
    }
}

/// `es` with `v` stored under `k`: the first entry keyed `k` is
/// replaced in place, or a new entry is appended.
pub open spec fn store(es: Seq<(Seq<u8>, Seq<u8>)>, k: Seq<u8>, v: Seq<u8>) -> Seq<(Seq<u8>, Seq<u8>)>
    decreases es.len(),
{
    if es.len() == 0 {
        seq![(k, v)]
    } else if es[0].0 == k {
        seq![(k, v)] + es.drop_first()
    } else {
        seq![es[0]] + store(es.drop_first(), k, v)
    }
}

/// `es` without the first entry keyed `k`.
pub open spec fn remove_key(es: Seq<(Seq<u8>, Seq<u8>)>, k: Seq<u8>) -> Seq<(Seq<u8>, Seq<u8>)>
    decreases es.len(),
{
    if es.len() == 0 {
        es
    } else if es[0].0 == k {
        es.drop_first()
    } else {
        seq![es[0]] + remove_key(es.drop_first(), k)
    }
}

/// No two entries share a key.
pub open spec fn unique_keys(es: Seq<(Seq<u8>, Seq<u8>)>) -> bool {
    forall|i: int, j: int| 0 <= i < j < es.len() ==> (#[trigger] es[i]).0 != (#[trigger] es[j]).0
}

/// Reading a key back after storing it yields exactly the stored
/// value.
pub proof fn lemma_lookup_store(es: Seq<(Seq<u8>, Seq<u8>)>, k: Seq<u8>, v: Seq<u8>)
    ensures
        lookup(store(es, k, v), k) == Some(v),
    decreases es.len(),
{
    if es.len() == 0 {
        assert(store(es, k, v)[0] == (k, v));
    } else if es[0].0 == k {
        assert(store(es, k, v)[0] == (k, v));
    } else {
        lemma_lookup_store(es.drop_first(), k, v);
        assert(store(es, k, v)[0] == es[0]);
        assert(store(es, k, v).drop_first() =~= store(es.drop_first(), k, v));
    }
}

/// Storing under one key leaves every other key's value unchanged.
pub proof fn lemma_lookup_store_other(es: Seq<(Seq<u8>, Seq<u8>)>, k: Seq<u8>, v: Seq<u8>, k2: Seq<u8>)
    requires
        k2 != k,
    ensures
        lookup(store(es, k, v), k2) == lookup(es, k2),
    decreases es.len(),
{
    if es.len() == 0 {
        assert(store(es, k, v)[0] == (k, v));
        assert(store(es, k, v).drop_first() =~= Seq::<(Seq<u8>, Seq<u8>)>::empty());
        assert(lookup(Seq::<(Seq<u8>, Seq<u8>)>::empty(), k2) == None::<Seq<u8>>);
    } else if es[0].0 == k {
        assert(store(es, k, v)[0] == (k, v));
        assert(store(es, k, v).drop_first() =~= es.drop_first());
    } else {
        lemma_lookup_store_other(es.drop_first(), k, v, k2);
        assert(store(es, k, v)[0] == es[0]);
        assert(store(es, k, v).drop_first() =~= store(es.drop_first(), k, v));
    }
}

/// After deleting a key, looking it up reports nothing, provided no
/// second entry hid behind the first.
pub proof fn lemma_lookup_remove(es: Seq<(Seq<u8>, Seq<u8>)>, k: Seq<u8>)
    requires
        unique_keys(es),
    ensures
        lookup(remove_key(es, k), k) == None::<Seq<u8>>,
    decreases es.len(),
{
    if es.len() == 0 {
    } else if es[0].0 == k {
        lemma_lookup_absent_unique(es, k);
    } else {
        assert(unique_keys(es.drop_first())) by {
            assert forall|i: int, j: int|
                0 <= i < j < es.drop_first().len() implies (#[trigger] es.drop_first()[i]).0 != (
            #[trigger] es.drop_first()[j]).0 by {
                assert(es[i + 1].0 != es[j + 1].0);
            }
        }
        lemma_lookup_remove(es.drop_first(), k);
        assert(remove_key(es, k)[0] == es[0]);
        assert(remove_key(es, k).drop_first() =~= remove_key(es.drop_first(), k));
    }
}

/// In a duplicate-free sequence whose head is keyed `k`, the tail does
/// not know `k`.
proof fn lemma_lookup_absent_unique(es: Seq<(Seq<u8>, Seq<u8>)>, k: Seq<u8>)
    requires
        unique_keys(es),
        es.len() > 0,
        es[0].0 == k,
    ensures
        lookup(es.drop_first(), k) == None::<Seq<u8>>,
{
    lemma_lookup_no_key(es.drop_first(), k);
}

/// If no entry is keyed `k`, lookup reports nothing.
pub proof fn lemma_lookup_no_key(es: Seq<(Seq<u8>, Seq<u8>)>, k: Seq<u8>)
    requires
        forall|i: int| 0 <= i < es.len() ==> (#[trigger] es[i]).0 != k,
    ensures
        lookup(es, k) == None::<Seq<u8>>,
    decreases es.len(),
{
    if es.len() > 0 {
        lemma_lookup_no_key(es.drop_first(), k);
    }
}

/// Deleting one key leaves every other key's value unchanged.
pub proof fn lemma_lookup_remove_other(es: Seq<(Seq<u8>, Seq<u8>)>, k: Seq<u8>, k2: Seq<u8>)
    requires
        k2 != k,
    ensures
        lookup(remove_key(es, k), k2) == lookup(es, k2),
    decreases es.len(),
{
    if es.len() == 0 {
    } else if es[0].0 == k {
    } else {
        lemma_lookup_remove_other(es.drop_first(), k, k2);
        assert(remove_key(es, k)[0] == es[0]);
        assert(remove_key(es, k).drop_first() =~= remove_key(es.drop_first(), k));
    }
}

/// Storing keeps keys duplicate-free.
pub proof fn lemma_store_unique(es: Seq<(Seq<u8>, Seq<u8>)>, k: Seq<u8>, v: Seq<u8>)
    requires
        unique_keys(es),
    ensures
        unique_keys(store(es, k, v)),
        store(es, k, v).len() == if lookup(es, k) is Some {
            es.len() as int
        } else {
            es.len() as int + 1
        },
        forall|i: int|
            0 <= i < store(es, k, v).len() ==> (#[trigger] store(es, k, v)[i]).0 == k || exists|j: int|
                0 <= j < es.len() && (#[trigger] es[j]).0 == store(es, k, v)[i].0,
    decreases es.len(),
{
    let r = store(es, k, v);
    if es.len() == 0 {
        assert(r[0] == (k, v));
    } else if es[0].0 == k {
        assert(r[0] == (k, v));
        assert(r.drop_first() =~= es.drop_first());
        assert forall|i: int, j: int| 0 <= i < j < r.len() implies (#[trigger] r[i]).0 != (
        #[trigger] r[j]).0 by {
            if i == 0 {
                assert(r[j] == es[j]);
                assert(es[0].0 != es[j].0);
            } else {
                assert(r[i] == es[i] && r[j] == es[j]);
            }
        }
        assert forall|i: int|
            0 <= i < r.len() implies (#[trigger] r[i]).0 == k || exists|j: int|
                0 <= j < es.len() && (#[trigger] es[j]).0 == r[i].0 by {
            if i > 0 {
                assert(es[i].0 == r[i].0);
            }
        }
    } else {
        assert(unique_keys(es.drop_first())) by {
            assert forall|i: int, j: int|
                0 <= i < j < es.drop_first().len() implies (#[trigger] es.drop_first()[i]).0 != (
            #[trigger] es.drop_first()[j]).0 by {
                assert(es[i + 1].0 != es[j + 1].0);
            }
        }
        lemma_store_unique(es.drop_first(), k, v);
        let rd = store(es.drop_first(), k, v);
        assert(r[0] == es[0]);
        assert(r.drop_first() =~= rd);
        assert forall|i: int, j: int| 0 <= i < j < r.len() implies (#[trigger] r[i]).0 != (
        #[trigger] r[j]).0 by {
            if i == 0 {
                assert(r[j] == rd[j - 1]);
                if rd[j - 1].0 == k {
                    assert(es[0].0 != k);
                } else {
                    let jj = choose|jj: int|
                        0 <= jj < es.drop_first().len() && (#[trigger] es.drop_first()[jj]).0 == rd[j - 1].0;
                    assert(es[jj + 1].0 == rd[j - 1].0);
                    assert(es[0].0 != es[jj + 1].0);
                }
            } else {
                assert(r[i] == rd[i - 1] && r[j] == rd[j - 1]);
            }
        }
        assert forall|i: int|
            0 <= i < r.len() implies (#[trigger] r[i]).0 == k || exists|j: int|
                0 <= j < es.len() && (#[trigger] es[j]).0 == r[i].0 by {
            if i == 0 {
                assert(es[0].0 == r[0].0);
            } else {
                assert(r[i] == rd[i - 1]);
                if rd[i - 1].0 != k {
                    let jj = choose|jj: int|
                        0 <= jj < es.drop_first().len() && (#[trigger] es.drop_first()[jj]).0 == rd[i - 1].0;
                    assert(es[jj + 1].0 == r[i].0);
                }
            }
        }
    }
}

/// Deleting keeps keys duplicate-free.
pub proof fn lemma_remove_unique(es: Seq<(Seq<u8>, Seq<u8>)>, k: Seq<u8>)
    requires
        unique_keys(es),
    ensures
        unique_keys(remove_key(es, k)),
        remove_key(es, k).len() <= es.len(),
        forall|i: int|
            #![trigger remove_key(es, k)[i]]
            0 <= i < remove_key(es, k).len() ==> exists|j: int|
                0 <= j < es.len() && (#[trigger] es[j]) == remove_key(es, k)[i],
    decreases es.len(),
{
    let r = remove_key(es, k);
    if es.len() == 0 {
    } else if es[0].0 == k {
        assert(r =~= es.drop_first());
        assert forall|i: int, j: int| 0 <= i < j < r.len() implies (#[trigger] r[i]).0 != (
        #[trigger] r[j]).0 by {
            assert(es[i + 1].0 != es[j + 1].0);
        }
        assert forall|i: int| #![trigger r[i]]
            0 <= i < r.len() implies exists|j: int|
                0 <= j < es.len() && (#[trigger] es[j]) == r[i] by {
            assert(es[i + 1] == r[i]);
        }
    } else {
        assert(unique_keys(es.drop_first())) by {
            assert forall|i: int, j: int|
                0 <= i < j < es.drop_first().len() implies (#[trigger] es.drop_first()[i]).0 != (
            #[trigger] es.drop_first()[j]).0 by {
                assert(es[i + 1].0 != es[j + 1].0);
            }
        }
        lemma_remove_unique(es.drop_first(), k);
        let rd = remove_key(es.drop_first(), k);
        assert(r[0] == es[0]);
        assert(r.drop_first() =~= rd);
        assert forall|i: int, j: int| 0 <= i < j < r.len() implies (#[trigger] r[i]).0 != (
        #[trigger] r[j]).0 by {
            if i == 0 {
                assert(r[j] == rd[j - 1]);
                let jj = choose|jj: int|
                    0 <= jj < es.drop_first().len() && (#[trigger] es.drop_first()[jj]) == rd[j - 1];
                assert(es[jj + 1] == rd[j - 1]);
                assert(es[0].0 != es[jj + 1].0);
            } else {
                assert(r[i] == rd[i - 1] && r[j] == rd[j - 1]);
            }
        }
        assert forall|i: int| #![trigger r[i]]
            0 <= i < r.len() implies exists|j: int|
                0 <= j < es.len() && (#[trigger] es[j]) == r[i] by {
            if i == 0 {
                assert(es[0] == r[0]);
            } else {
                assert(r[i] == rd[i - 1]);
                let jj = choose|jj: int|
                    0 <= jj < es.drop_first().len() && (#[trigger] es.drop_first()[jj]) == rd[i - 1];
                assert(es[jj + 1] == r[i]);
            }
        }
    }
}

/// Storing at the position of the first matching entry is an in-place
/// update.
pub proof fn lemma_store_update(es: Seq<(Seq<u8>, Seq<u8>)>, j: int, k: Seq<u8>, v: Seq<u8>)
    requires
        0 <= j < es.len(),
        es[j].0 == k,
        forall|i: int| 0 <= i < j ==> (#[trigger] es[i]).0 != k,
    ensures
        store(es, k, v) == es.update(j, (k, v)),
    decreases j,
{
    if j == 0 {
        assert(store(es, k, v) =~= es.update(0, (k, v)));
    } else {
        assert forall|i: int| 0 <= i < j - 1 implies (#[trigger] es.drop_first()[i]).0 != k by {
            assert(es[i + 1].0 != k);
        }
        assert(es.drop_first()[j - 1] == es[j]);
        lemma_store_update(es.drop_first(), j - 1, k, v);
        assert(store(es, k, v) =~= es.update(j, (k, v)));
    }
}

/// Storing an unknown key appends the new entry.
pub proof fn lemma_store_push(es: Seq<(Seq<u8>, Seq<u8>)>, k: Seq<u8>, v: Seq<u8>)
    requires
        forall|i: int| 0 <= i < es.len() ==> (#[trigger] es[i]).0 != k,
    ensures
        store(es, k, v) == es.push((k, v)),
    decreases es.len(),
{
    if es.len() == 0 {
        assert(store(es, k, v) =~= es.push((k, v)));
    } else {
        assert forall|i: int| 0 <= i < es.drop_first().len() implies (
        #[trigger] es.drop_first()[i]).0 != k by {
            assert(es[i + 1].0 != k);
        }
        lemma_store_push(es.drop_first(), k, v);
        assert(store(es, k, v) =~= es.push((k, v)));
    }
}

/// Deleting the first matching entry removes exactly that position.
pub proof fn lemma_remove_at(es: Seq<(Seq<u8>, Seq<u8>)>, j: int, k: Seq<u8>)
    requires
        0 <= j < es.len(),
        es[j].0 == k,
        forall|i: int| 0 <= i < j ==> (#[trigger] es[i]).0 != k,
    ensures
        remove_key(es, k) == es.remove(j),
    decreases j,
{
    if j == 0 {
        assert(remove_key(es, k) =~= es.remove(0));
    } else {
        assert forall|i: int| 0 <= i < j - 1 implies (#[trigger] es.drop_first()[i]).0 != k by {
            assert(es[i + 1].0 != k);
        }
        assert(es.drop_first()[j - 1] == es[j]);
        lemma_remove_at(es.drop_first(), j - 1, k);
        assert(remove_key(es, k) =~= es.remove(j));
    }
}

/// Deleting an unknown key changes nothing.
pub proof fn lemma_remove_absent(es: Seq<(Seq<u8>, Seq<u8>)>, k: Seq<u8>)
    requires
        forall|i: int| 0 <= i < es.len() ==> (#[trigger] es[i]).0 != k,
    ensures
        remove_key(es, k) == es,
    decreases es.len(),
{
    if es.len() == 0 {
    } else {
        assert forall|i: int| 0 <= i < es.drop_first().len() implies (
        #[trigger] es.drop_first()[i]).0 != k by {
            assert(es[i + 1].0 != k);
        }
        lemma_remove_absent(es.drop_first(), k);
        assert(remove_key(es, k) =~= es);
    }
}


/// Lookup returns the value at the first matching position.
pub proof fn lemma_lookup_first(es: Seq<(Seq<u8>, Seq<u8>)>, j: int, k: Seq<u8>)
    requires
        0 <= j < es.len(),
        es[j].0 == k,
        forall|i: int| 0 <= i < j ==> (#[trigger] es[i]).0 != k,
    ensures
        lookup(es, k) == Some(es[j].1),
    decreases j,
{
    if j == 0 {
    } else {
        assert forall|i: int| 0 <= i < j - 1 implies (#[trigger] es.drop_first()[i]).0 != k by {
            assert(es[i + 1].0 != k);
        }
        assert(es.drop_first()[j - 1] == es[j]);
        lemma_lookup_first(es.drop_first(), j - 1, k);
    }
}

/// Round trip: a value stored under a key is exactly what a later
/// lookup of that key returns, and a deleted key is reported absent,
/// whenever the contents hold no duplicate key.
pub proof fn lemma_round_trip(es: Seq<(Seq<u8>, Seq<u8>)>, k: Seq<u8>, v: Seq<u8>)
    requires
        unique_keys(es),
    ensures
        lookup(store(es, k, v), k) == Some(v),
        lookup(remove_key(es, k), k) == None::<Seq<u8>>,
{
    lemma_lookup_store(es, k, v);
    lemma_lookup_remove(es, k);
}

} // verus!
