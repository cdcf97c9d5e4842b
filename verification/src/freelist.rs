//! The free-page allocator. Pages vacated by a write transaction are
//! parked under that transaction's id and only become reusable once no
//! open reader's snapshot predates it.

use vstd::prelude::*;
use crate::page::PageID;

verus! {

broadcast use vstd::seq_lib::lemma_seq_contains_after_push, vstd::seq_lib::lemma_seq_concat_contains_all_elements;

/// Registry of reclaimable pages: `free` is immediately reusable;
/// `pending` holds one `(freeing transaction id, page id)` pair per
/// parked page.
pub struct Freelist {
    free: Vec<PageID>,
    pending: Vec<(u64, PageID)>,
}

/// Whether `free` holds the whole run of `n` page ids starting at `s`.
pub open spec fn run_available(free: Seq<PageID>, s: PageID, n: u64) -> bool {
    &&& s + n <= u64::MAX + 1
    &&& forall|i: int| 0 <= i < n ==> #[trigger] free.contains((s + i) as PageID)
}

/// Whether `s` parks page `p` under some transaction id older than
/// `min_open`.
pub open spec fn parked_before(s: Seq<(u64, PageID)>, min_open: u64, p: PageID) -> bool {
    exists|jj: int| 0 <= jj < s.len() && s[jj].0 < min_open && s[jj].1 == p
}

impl Freelist {
    /// The reusable page ids.
    pub closed spec fn free_seq(self) -> Seq<PageID> {
        self.free@
    }

    /// The parked `(freeing transaction id, page id)` pairs.
    pub closed spec fn pending_seq(self) -> Seq<(u64, PageID)> {
        self.pending@
    }

    /// The reusable set holds `p`.
    pub open spec fn free_has(self, p: PageID) -> bool {
        self.free_seq().contains(p)
    }

    /// Some pending entry holds `p`.
    pub open spec fn pending_has(self, p: PageID) -> bool {
        exists|t: u64| self.pending_seq().contains((t, p))
    }

    /// Page `p` is parked under freeing transaction id `t`.
    pub open spec fn pending_has_under(self, t: u64, p: PageID) -> bool {
        self.pending_seq().contains((t, p))
    }

    /// No page id is aliased: the reusable set is duplicate-free, no
    /// page is parked twice, and no page is reusable and parked at
    /// once.
    pub open spec fn wf(self) -> bool {
        &&& self.free_seq().no_duplicates()
        &&& forall|i: int, j: int|
            0 <= i < j < self.pending_seq().len() ==> self.pending_seq()[i].1
                != self.pending_seq()[j].1
        &&& forall|p: PageID| self.free_has(p) ==> !self.pending_has(p)
    }

    /// An empty freelist.
    pub fn new() -> (r: Freelist)
        ensures
            r.wf(),
            forall|p: PageID| !r.free_has(p),
            forall|p: PageID| !r.pending_has(p),
            r.pending_seq().len() == 0,
            r.free_seq().len() == 0,
    {
        Freelist { free: Vec::new(), pending: Vec::new() }
    }

    /// Seed the reusable set from the page ids recorded on disk.
    pub fn init(&mut self, free_pages: Vec<PageID>)
        requires
            free_pages@.no_duplicates(),
            old(self).pending_seq().len() == 0,
        ensures
            final(self).wf(),
            final(self).free_seq() == free_pages@,
            forall|p: PageID| final(self).free_has(p) <==> free_pages@.contains(p),
            final(self).pending_seq().len() == 0,
            forall|p: PageID| !final(self).pending_has(p),
    {
        self.free = free_pages;
        proof {
            assert forall|p: PageID| !(*self).pending_has(p) by {
                if self.pending_has(p) {
                    let t = choose|t: u64| self.pending_seq().contains((t, p));
                }
            }
        }
    }

    /// The reusable page ids, for writing the freelist page at commit.
    pub fn free_pages(&self) -> (r: &Vec<PageID>)
        ensures
            r@ == self.free_seq(),
    {
        &self.free
    }

    /// Take a contiguous run of `n` reusable pages out of the reusable
    /// set, or report that none suffices and the file must grow.
    pub fn allocate(&mut self, n: u64) -> (r: Option<PageID>)
        requires
            old(self).wf(),
            n >= 1,
        ensures
            final(self).wf(),
            final(self).pending_seq() == old(self).pending_seq(),
            final(self).free_seq().len() <= old(self).free_seq().len(),
            match r {
                Some(start) => {
                    &&& run_available(old(self).free_seq(), start, n)
                    &&& forall|p: PageID|
                        final(self).free_has(p) <==> (old(self).free_has(p) && !(start <= p < start
                            + n))
                },
                None => {
                    &&& *final(self) == *old(self)
                    &&& forall|s: PageID|
                        #![trigger old(self).free_seq().contains(s)]
                        old(self).free_has(s) ==> !run_available(old(self).free_seq(), s, n)
                },
            },
    {
        let len = self.free.len();
        let mut j: usize = 0;
        while j < len
            invariant
                self.wf(),
                *self == *old(self),
                len == self.free_seq().len(),
                0 <= j <= len,
                n >= 1,
                forall|jj: int| 0 <= jj < j ==> !run_available(self.free_seq(), self.free_seq()[jj], n),
            decreases len - j,
        {
            let s = self.free[j];
            if self.run_from(s, n) {
                self.remove_run(s, n);
                return Some(s);
            }
            j = j + 1;
        }
        proof {
            assert forall|s: PageID| self.free_has(s) implies !run_available(
                self.free_seq(),
                s,
                n,
            ) by {
                let jj = choose|jj: int| 0 <= jj < self.free_seq().len() && self.free_seq()[jj] == s;
                assert(!run_available(self.free_seq(), self.free_seq()[jj], n));
            }
        }
        None
    }

    /// Whether the whole run of `n` ids starting at `s` is reusable.
    fn run_from(&self, s: PageID, n: u64) -> (r: bool)
        requires
            n >= 1,
        ensures
            r == run_available(self.free_seq(), s, n),
    {
        let mut i: u64 = 0;
        while i < n
            invariant
                0 <= i <= n,
                s + i <= u64::MAX + 1,
                forall|k: int| 0 <= k < i ==> #[trigger] self.free_seq().contains((s + k) as PageID),
            decreases n - i,
        {
            if s > u64::MAX - i {
                proof {
                    assert(s + n > u64::MAX + 1);
                }
                return false;
            }
            if !contains_page(&self.free, s + i) {
                return false;
            }
            i = i + 1;
        }
        true
    }

    /// Drop every id in `[start, start + n)` from the reusable set.
    fn remove_run(&mut self, start: PageID, n: u64)
        requires
            old(self).wf(),
        ensures
            final(self).wf(),
            final(self).pending_seq() == old(self).pending_seq(),
            final(self).free_seq().len() <= old(self).free_seq().len(),
            forall|p: PageID|
                final(self).free_has(p) <==> (old(self).free_has(p) && !(start <= p < start + n)),
    {
        let len = self.free.len();
        let mut kept: Vec<PageID> = Vec::new();
        let mut i: usize = 0;
        while i < len
            invariant
                len == self.free_seq().len(),
                0 <= i <= len,
                self.wf(),
                *self == *old(self),
                kept@.len() <= i,
                kept@.no_duplicates(),
                forall|p: PageID| #[trigger]
                    kept@.contains(p) <==> (self.free_seq().subrange(0, i as int).contains(p)
                        && !(start <= p < start + n)),
            decreases len - i,
        {
            let ghost sub0 = self.free_seq().subrange(0, i as int);
            let ghost sub1 = self.free_seq().subrange(0, i + 1);
            let p = self.free[i];
            proof {
                assert(sub1 =~= sub0.push(self.free_seq()[i as int]));
                if kept@.contains(p) {
                    let jj = choose|jj: int| 0 <= jj < sub0.len() && sub0[jj] == p;
                    assert(self.free_seq()[jj] == p);
                    assert(self.free_seq()[i as int] == p);
                }
            }
            let in_run = start <= p && (p - start) < n;
            if !in_run {
                kept.push(p);
            }
            i = i + 1;
        }
        proof {
            assert(self.free_seq().subrange(0, len as int) =~= self.free_seq());
        }
        self.free = kept;
        proof {
            assert forall|p: PageID| (*self).free_has(p) implies !(*self).pending_has(p) by {
                assert(old(self).free_seq().subrange(0, len as int).contains(p));
                assert(old(self).free_has(p));
                if self.pending_has(p) {
                    let t = choose|t: u64| self.pending_seq().contains((t, p));
                    assert(old(self).pending_seq().contains((t, p)));
                    assert(old(self).pending_has(p));
                }
            }
            assert forall|i: int, j: int|
                0 <= i < j < (*self).pending_seq().len() implies (*self).pending_seq()[i].1 != (
            *self).pending_seq()[j].1 by {
                assert((*self).pending_seq()[i] == old(self).pending_seq()[i]);
                assert((*self).pending_seq()[j] == old(self).pending_seq()[j]);
            }
        }
    }

    /// Park the pages vacated by the write transaction `tx_id`; they
    /// are not reusable yet.
    pub fn free(&mut self, tx_id: u64, pages: &Vec<PageID>)
        requires
            old(self).wf(),
            pages@.no_duplicates(),
            forall|p: PageID| pages@.contains(p) ==> !old(self).free_has(p),
            forall|p: PageID| pages@.contains(p) ==> !old(self).pending_has(p),
        ensures
            final(self).wf(),
            final(self).free_seq() == old(self).free_seq(),
            final(self).pending_seq().len() == old(self).pending_seq().len() + pages@.len(),
            forall|p: PageID|
                final(self).pending_has(p) <==> (old(self).pending_has(p) || pages@.contains(p)),
            forall|t: u64, p: PageID|
                final(self).pending_has_under(t, p) <==> (old(self).pending_has_under(t, p) || (t
                    == tx_id && pages@.contains(p))),
    {
        let ghost pre = *self;
        let n = pages.len();
        let mut k: usize = 0;
        while k < n
            invariant
                n == pages@.len(),
                0 <= k <= n,
                pre.wf(),
                pages@.no_duplicates(),
                forall|p: PageID| pages@.contains(p) ==> !pre.free_has(p),
                forall|p: PageID| pages@.contains(p) ==> !pre.pending_has(p),
                self.free_seq() == pre.free_seq(),
                forall|t: u64, p: PageID| #[trigger]
                    self.pending_seq().contains((t, p)) <==> (pre.pending_seq().contains((t, p))
                        || (t == tx_id && pages@.subrange(0, k as int).contains(p))),
                forall|i: int, j: int|
                    0 <= i < j < self.pending_seq().len() ==> self.pending_seq()[i].1
                        != self.pending_seq()[j].1,
                self.pending_seq().len() == pre.pending_seq().len() + k,
            decreases n - k,
        {
            let ghost cur = self.pending_seq();
            let ghost sub0 = pages@.subrange(0, k as int);
            let ghost sub1 = pages@.subrange(0, k + 1);
            let p = pages[k];
            proof {
                assert(sub1 =~= sub0.push(pages@[k as int]));
                assert(pages@.contains(pages@[k as int]));
                assert forall|i: int| 0 <= i < cur.len() implies cur[i].1 != p by {
                    assert(cur.contains(cur[i]));
                    let t0 = cur[i].0;
                    let p0 = cur[i].1;
                    assert(cur.contains((t0, p0)));
                    if pre.pending_seq().contains((t0, p0)) {
                        if p0 == p {
                            assert(pre.pending_has(p));
                        }
                    } else {
                        assert(t0 == tx_id && sub0.contains(p0));
                        if p0 == p {
                            let x = choose|x: int| 0 <= x < k && sub0[x] == p0;
                            assert(pages@[x] == pages@[k as int]);
                        }
                    }
                }
            }
            self.pending.push((tx_id, p));
            k = k + 1;
        }
        proof {
            assert(pages@.subrange(0, n as int) =~= pages@);
            assert forall|p: PageID|
                (*self).pending_has(p) <==> (pre.pending_has(p) || pages@.contains(p)) by {
                if self.pending_has(p) {
                    let t = choose|t: u64| self.pending_seq().contains((t, p));
                    if pre.pending_seq().contains((t, p)) {
                        assert(pre.pending_has(p));
                    }
                }
                if pre.pending_has(p) {
                    let t = choose|t: u64| pre.pending_seq().contains((t, p));
                    assert(self.pending_seq().contains((t, p)));
                    assert(self.pending_has(p));
                }
                if pages@.contains(p) {
                    assert(self.pending_seq().contains((tx_id, p)));
                    assert(self.pending_has(p));
                }
            }
            assert forall|p: PageID| (*self).free_has(p) implies !(*self).pending_has(p) by {
                assert(pre.free_has(p));
                if self.pending_has(p) {
                    assert(pre.pending_has(p) || pages@.contains(p));
                }
            }
        }
    }

    /// Move every parked page whose freeing transaction id is strictly
    /// older than the oldest open snapshot into the reusable set;
    /// younger entries stay parked.
    pub fn release_pending(&mut self, min_open: u64)
        requires
            old(self).wf(),
        ensures
            final(self).wf(),
            final(self).free_seq().len() <= old(self).free_seq().len() + old(
                self,
            ).pending_seq().len(),
            forall|p: PageID|
                final(self).free_has(p) <==> (old(self).free_has(p) || exists|t: u64|
                    t < min_open && old(self).pending_has_under(t, p)),
            forall|t: u64, p: PageID|
                final(self).pending_has_under(t, p) <==> (t >= min_open && old(
                    self,
                ).pending_has_under(t, p)),
    {
        let ghost pre = *self;
        let plen = self.pending.len();
        let mut kept: Vec<(u64, PageID)> = Vec::new();
        let mut freed: Vec<PageID> = Vec::new();
        let mut i: usize = 0;
        while i < plen
            invariant
                *self == pre,
                pre.wf(),
                plen == self.pending_seq().len(),
                0 <= i <= plen,
                freed@.len() + kept@.len() == i,
                freed@.no_duplicates(),
                forall|p: PageID| #[trigger]
                    freed@.contains(p) <==> parked_before(
                        pre.pending_seq().subrange(0, i as int),
                        min_open,
                        p,
                    ),
                forall|q: (u64, PageID)| #[trigger]
                    kept@.contains(q) <==> (pre.pending_seq().subrange(0, i as int).contains(q)
                        && q.0 >= min_open),
                forall|k1: int, k2: int| 0 <= k1 < k2 < kept@.len() ==> kept@[k1].1 != kept@[k2].1,
            decreases plen - i,
        {
            let ghost sub0 = pre.pending_seq().subrange(0, i as int);
            let ghost sub1 = pre.pending_seq().subrange(0, i + 1);
            let pr = self.pending[i];
            proof {
                assert(sub1 =~= sub0.push(pre.pending_seq()[i as int]));
            }
            if pr.0 < min_open {
                proof {
                    if freed@.contains(pr.1) {
                        let jj = choose|jj: int|
                            0 <= jj < sub0.len() && sub0[jj].0 < min_open && sub0[jj].1 == pr.1;
                        assert(pre.pending_seq()[jj].1 == pre.pending_seq()[i as int].1);
                    }
                }
                freed.push(pr.1);
                proof {
                    assert forall|p: PageID| #[trigger]
                        freed@.contains(p) <==> parked_before(sub1, min_open, p) by {
                        if freed@.contains(p) {
                            if parked_before(sub0, min_open, p) {
                                let jj = choose|jj: int|
                                    0 <= jj < sub0.len() && sub0[jj].0 < min_open && sub0[jj].1
                                        == p;
                                assert(sub1[jj].0 < min_open && sub1[jj].1 == p);
                            } else {
                                assert(p == pr.1);
                                assert(sub1[i as int].0 < min_open && sub1[i as int].1 == p);
                            }
                        }
                        if parked_before(sub1, min_open, p) {
                            let jj = choose|jj: int|
                                0 <= jj < sub1.len() && sub1[jj].0 < min_open && sub1[jj].1 == p;
                            if jj < i {
                                assert(sub0[jj].0 < min_open && sub0[jj].1 == p);
                            } else {
                                assert(p == pr.1);
                            }
                        }
                    }
                }
            } else {
                proof {
                    assert forall|k1: int| 0 <= k1 < kept@.len() implies kept@[k1].1 != pr.1 by {
                        assert(kept@.contains(kept@[k1]));
                        let q = kept@[k1];
                        let jj = choose|jj: int| 0 <= jj < sub0.len() && sub0[jj] == q;
                        assert(pre.pending_seq()[jj] == q);
                        if q.1 == pr.1 {
                            assert(pre.pending_seq()[jj].1 == pre.pending_seq()[i as int].1);
                        }
                    }
                }
                kept.push(pr);
                proof {
                    assert forall|p: PageID| #[trigger]
                        freed@.contains(p) <==> parked_before(sub1, min_open, p) by {
                        if freed@.contains(p) {
                            let jj = choose|jj: int|
                                0 <= jj < sub0.len() && sub0[jj].0 < min_open && sub0[jj].1 == p;
                            assert(sub1[jj].0 < min_open && sub1[jj].1 == p);
                        }
                        if parked_before(sub1, min_open, p) {
                            let jj = choose|jj: int|
                                0 <= jj < sub1.len() && sub1[jj].0 < min_open && sub1[jj].1 == p;
                            assert(jj < i);
                            assert(sub0[jj].0 < min_open && sub0[jj].1 == p);
                        }
                    }
                }
            }
            i = i + 1;
        }
        proof {
            assert(pre.pending_seq().subrange(0, plen as int) =~= pre.pending_seq());
            assert forall|p: PageID| freed@.contains(p) implies !pre.free_has(p) by {
                let jj = choose|jj: int|
                    0 <= jj < pre.pending_seq().len() && pre.pending_seq()[jj].0 < min_open
                        && pre.pending_seq()[jj].1 == p;
                assert(pre.pending_seq().contains(pre.pending_seq()[jj]));
                assert(pre.pending_has(p));
            }
        }
        let ghost pre_free = self.free_seq();
        proof {
            assert(pre_free == pre.free_seq());
            assert forall|p: PageID| freed@.contains(p) implies !pre_free.contains(p) by {
                assert(!pre.free_has(p));
            }
        }
        let fl = freed.len();
        let mut fi: usize = 0;
        while fi < fl
            invariant
                fl == freed@.len(),
                0 <= fi <= fl,
                freed@.no_duplicates(),
                forall|p: PageID| freed@.contains(p) ==> !pre_free.contains(p),
                pre_free.no_duplicates(),
                self.free_seq() == pre_free + freed@.subrange(0, fi as int),
                self.pending_seq() == pre.pending_seq(),
            decreases fl - fi,
        {
            let p = freed[fi];
            self.free.push(p);
            proof {
                assert(self.free_seq() =~= pre_free + freed@.subrange(0, fi + 1));
            }
            fi = fi + 1;
        }
        proof {
            assert(self.free_seq() =~= pre_free + freed@);
            lemma_concat_no_duplicates(pre_free, freed@);
        }
        self.pending = kept;
        proof {
            assert forall|p: PageID|
                (*self).free_has(p) <==> (pre.free_has(p) || exists|t: u64|
                    t < min_open && pre.pending_has_under(t, p)) by {
                if self.free_seq().contains(p) {
                    if !pre_free.contains(p) {
                        assert(freed@.contains(p));
                        let jj = choose|jj: int|
                            0 <= jj < pre.pending_seq().len() && pre.pending_seq()[jj].0 < min_open
                                && pre.pending_seq()[jj].1 == p;
                        let t0 = pre.pending_seq()[jj].0;
                        assert(pre.pending_seq().contains((t0, p)));
                        assert(t0 < min_open && pre.pending_has_under(t0, p));
                    }
                }
                if (exists|t: u64| t < min_open && pre.pending_has_under(t, p)) {
                    let t = choose|t: u64| t < min_open && pre.pending_has_under(t, p);
                    let jj = choose|jj: int|
                        0 <= jj < pre.pending_seq().len() && pre.pending_seq()[jj] == (t, p);
                    assert(pre.pending_seq()[jj].0 < min_open && pre.pending_seq()[jj].1 == p);
                    assert(freed@.contains(p));
                    assert(self.free_seq().contains(p));
                }
                if pre.free_has(p) {
                    assert(self.free_seq().contains(p));
                }
            }
            assert forall|t: u64, p: PageID|
                (*self).pending_has_under(t, p) <==> (t >= min_open && pre.pending_has_under(
                    t,
                    p,
                )) by {}
            assert forall|p: PageID| (*self).free_has(p) implies !(*self).pending_has(p) by {
                if self.pending_has(p) {
                    let t = choose|t: u64| self.pending_seq().contains((t, p));
                    assert(kept@.contains((t, p)));
                    assert(pre.pending_seq().contains((t, p)));
                    assert(t >= min_open);
                    assert(pre.pending_has(p));
                    assert(!pre.free_has(p));
                    if freed@.contains(p) {
                        let jj = choose|jj: int|
                            0 <= jj < pre.pending_seq().len() && pre.pending_seq()[jj].0 < min_open
                                && pre.pending_seq()[jj].1 == p;
                        let ix = choose|ix: int|
                            0 <= ix < pre.pending_seq().len() && pre.pending_seq()[ix] == (t, p);
                        if jj < ix {
                            assert(pre.pending_seq()[jj].1 != pre.pending_seq()[ix].1);
                        } else if ix < jj {
                            assert(pre.pending_seq()[ix].1 != pre.pending_seq()[jj].1);
                        }
                    }
                }
            }
            assert forall|k1: int, k2: int|
                0 <= k1 < k2 < (*self).pending_seq().len() implies (*self).pending_seq()[k1].1
                != (*self).pending_seq()[k2].1 by {}
        }
    }

    /// A field-for-field copy of this allocator's state.
    pub fn duplicate(&self) -> (r: Freelist)
        ensures
            r.free_seq() == self.free_seq(),
            r.pending_seq() == self.pending_seq(),
    {
        let mut free: Vec<PageID> = Vec::new();
        let n = self.free.len();
        let mut i: usize = 0;
        while i < n
            invariant
                n == self.free@.len(),
                0 <= i <= n,
                free@ == self.free@.subrange(0, i as int),
            decreases n - i,
        {
            free.push(self.free[i]);
            proof {
                assert(free@ =~= self.free@.subrange(0, i + 1));
            }
            i = i + 1;
        }
        proof {
            assert(free@ =~= self.free@);
        }
        let mut pending: Vec<(u64, PageID)> = Vec::new();
        let m = self.pending.len();
        let mut j: usize = 0;
        while j < m
            invariant
                m == self.pending@.len(),
                0 <= j <= m,
                pending@ == self.pending@.subrange(0, j as int),
            decreases m - j,
        {
            pending.push(self.pending[j]);
            proof {
                assert(pending@ =~= self.pending@.subrange(0, j + 1));
            }
            j = j + 1;
        }
        proof {
            assert(pending@ =~= self.pending@);
        }
        Freelist { free, pending }
    }
}

/// A page parked under freeing transaction id `t` does not reach the
/// reusable set through a reclamation pass while the oldest open
/// snapshot id is at most `t`; once every such reader has closed (the
/// oldest open id exceeds `t`), the pass makes it reusable. `post` is
/// related to `pre` as `release_pending` leaves it.
pub proof fn lemma_no_premature_reuse(pre: Freelist, post: Freelist, min_open: u64, t: u64, p: PageID)
    requires
        pre.wf(),
        pre.pending_has_under(t, p),
        forall|q: PageID|
            #![trigger post.free_has(q)]
            post.free_has(q) <==> (pre.free_has(q) || exists|t2: u64|
                t2 < min_open && pre.pending_has_under(t2, q)),
        forall|t2: u64, q: PageID|
            #![trigger post.pending_has_under(t2, q)]
            post.pending_has_under(t2, q) <==> (t2 >= min_open && pre.pending_has_under(t2, q)),
    ensures
        post.free_has(p) <==> t < min_open,
        t >= min_open ==> post.pending_has_under(t, p),
{
    assert(pre.pending_has(p));
    assert(!pre.free_has(p));
    if t < min_open {
        assert(post.free_has(p));
    }
    if post.free_has(p) {
        let t2 = choose|t2: u64| t2 < min_open && pre.pending_has_under(t2, p);
        let ix1 = choose|ix1: int|
            0 <= ix1 < pre.pending_seq().len() && pre.pending_seq()[ix1] == (t, p);
        let ix2 = choose|ix2: int|
            0 <= ix2 < pre.pending_seq().len() && pre.pending_seq()[ix2] == (t2, p);
        if ix1 != ix2 {
            assert(pre.pending_seq()[ix1].1 != pre.pending_seq()[ix2].1);
        }
        assert(t == t2);
    }
}

/// Two allocators with the same reusable and parked pages are both
/// well-formed or both not.
pub proof fn lemma_wf_same_state(a: Freelist, b: Freelist)
    requires
        a.wf(),
        b.free_seq() == a.free_seq(),
        b.pending_seq() == a.pending_seq(),
    ensures
        b.wf(),
{
    assert forall|i: int, j: int|
        0 <= i < j < b.pending_seq().len() implies b.pending_seq()[i].1 != b.pending_seq()[j].1 by {
        assert(a.pending_seq()[i].1 != a.pending_seq()[j].1);
    }
    assert forall|p: PageID| b.free_has(p) implies !b.pending_has(p) by {
        assert(a.free_seq().contains(p));
        assert(a.free_has(p));
        if b.pending_has(p) {
            let t = choose|t: u64| b.pending_seq().contains((t, p));
            assert(a.pending_seq().contains((t, p)));
            assert(a.pending_has(p));
        }
    }
}

/// Concatenating duplicate-free sequences with no shared element keeps
/// the result duplicate-free.
proof fn lemma_concat_no_duplicates(a: Seq<PageID>, b: Seq<PageID>)
    requires
        a.no_duplicates(),
        b.no_duplicates(),
        forall|p: PageID| b.contains(p) ==> !a.contains(p),
    ensures
        (a + b).no_duplicates(),
{
    assert forall|i: int, j: int| 0 <= i < j < (a + b).len() implies (a + b)[i] != (a + b)[j] by {
        if i < a.len() && j >= a.len() {
            if a[i] == b[j - a.len()] {
                assert(a.contains(a[i]));
                assert(b.contains(b[j - a.len()]));
            }
        }
    }
}

/// Whether the vector holds `p`.
pub fn contains_page(v: &Vec<PageID>, p: PageID) -> (r: bool)
    ensures
        r == v@.contains(p),
{
    let n = v.len();
    let mut i: usize = 0;
    while i < n
        invariant
            n == v@.len(),
            0 <= i <= n,
            forall|j: int| 0 <= j < i ==> v@[j] != p,
        decreases n - i,
    {
        if v[i] == p {
            return true;
        }
        i = i + 1;
    }
    false
}

} // verus!
