//! Stride detection over the page offsets at which a file faults, per
//! `(tgid, dev, ino)`.
use vstd::prelude::*;
use crate::actions::{PrefetchAction, PrefetchBackend};

verus! {

/// Offsets remembered per file.
pub const HISTORY_CAP: usize = 32;

/// Size of a page, in bytes.
pub const PAGE_SIZE: u64 = 4096;

/// Bytes advised per predicted page.
pub const PREFETCH_LEN: u64 = 131072;

/// Number of pages predicted ahead.
pub const PREFETCH_PAGES: u64 = 8;

/// Identifies a mapped file: `(tgid, dev, ino)`.
pub type FileKey = (u32, u64, u64);

/// `h` with `p` appended, dropping the oldest offset when `h` is full.
pub open spec fn push_bounded(h: Seq<u64>, p: u64) -> Seq<u64> {
    if h.len() >= HISTORY_CAP {
        h.drop_first().push(p)
    } else {
        h.push(p)
    }
}

/// Delta `k` (`0 ≤ k < 6`) of the last six deltas of `h`, modulo 2^64.
pub open spec fn recent_delta(h: Seq<u64>, k: int) -> u64 {
    h[h.len() - 6 + k].wrapping_sub(h[h.len() - 7 + k])
}

/// How many of the last six deltas of `h` equal `d`.
pub open spec fn delta_count(h: Seq<u64>, d: u64) -> int {
    (if recent_delta(h, 0) == d { 1int } else { 0 }) + (if recent_delta(h, 1) == d { 1int } else { 0 })
        + (if recent_delta(h, 2) == d { 1int } else { 0 }) + (if recent_delta(h, 3) == d { 1int } else { 0 })
        + (if recent_delta(h, 4) == d { 1int } else { 0 }) + (if recent_delta(h, 5) == d { 1int } else { 0 })
}

/// A stride of `h`: a non-zero delta shared by at least five of its last six
/// deltas (there is at most one).
pub open spec fn is_stride(h: Seq<u64>, d: u64) -> bool {
    h.len() >= 7 && d != 0 && delta_count(h, d) >= 5
}

/// The ranges advised after a fault at `pgoff` with stride `d`: for
/// `k = 1..8`, offset `(pgoff + d·k)·4096` (modulo 2^64) and length 128 KiB.
pub open spec fn stride_ranges(pgoff: u64, d: u64) -> Seq<(u64, u64)> {
    Seq::new(
        8,
        |i: int| (pgoff.wrapping_add(d.wrapping_mul((i + 1) as u64)).wrapping_mul(PAGE_SIZE), PREFETCH_LEN),
    )
}

/// What a fault with resulting history `h` yields: a plan for `d` when `h` has
/// the stride `d`, else nothing.
pub open spec fn plan_matches(
    h: Seq<u64>,
    key: FileKey,
    pgoff: u64,
    r: Option<PrefetchAction>,
) -> bool {
    match r {
        None => forall|d: u64| !is_stride(h, d),
        Some(a) => exists|d: u64|
            is_stride(h, d) && a.tgid == key.0 && a.dev == key.1 && a.ino == key.2 && a.ranges@
                == stride_ranges(pgoff, d) && a.backend == PrefetchBackend::Fadvise,
    }
}

proof fn lemma_stride_unique(h: Seq<u64>, d: u64, e: u64)
    requires
        is_stride(h, d),
        is_stride(h, e),
    ensures
        d == e,
{
}

struct FileHistory {
    tgid: u32,
    dev: u64,
    ino: u64,
    hist: Vec<u64>,
}

impl FileHistory {
    spec fn key(&self) -> FileKey {
        (self.tgid, self.dev, self.ino)
    }
}

/// Bounded fault histories of the files seen so far.
pub struct PrefetchModel {
    files: Vec<FileHistory>,
}

impl PrefetchModel {
    pub closed spec fn wf(&self) -> bool {
        &&& forall|i: int, j: int|
            0 <= i < j < self.files@.len() ==> #[trigger] self.files@[i].key()
                != #[trigger] self.files@[j].key()
        &&& forall|i: int|
            0 <= i < self.files@.len() ==> #[trigger] self.files@[i].hist@.len() <= HISTORY_CAP
    }

    /// The offsets remembered for `key`, oldest first.
    pub closed spec fn history(&self, key: FileKey) -> Seq<u64> {
        if exists|i: int| 0 <= i < self.files@.len() && self.files@[i].key() == key {
            let i = choose|i: int| 0 <= i < self.files@.len() && self.files@[i].key() == key;
            self.files@[i].hist@
        } else {
            Seq::empty()
        }
    }

    proof fn lemma_history_at(&self, i: int)
        requires
            self.wf(),
            0 <= i < self.files@.len(),
        ensures
            self.history(self.files@[i].key()) == self.files@[i].hist@,
    {
        let key = self.files@[i].key();
        let j = choose|j: int| 0 <= j < self.files@.len() && self.files@[j].key() == key;
        assert(i == j);
    }


    fn find(&self, tgid: u32, dev: u64, ino: u64) -> (r: Option<usize>)
        requires
            self.wf(),
        ensures
            match r {
                Some(i) => i < self.files@.len() && self.files@[i as int].key() == (tgid, dev, ino),
                None => forall|j: int| 0 <= j < self.files@.len() ==> #[trigger] self.files@[j].key() != (tgid, dev, ino),
            },
    {
        let mut i: usize = 0;
        while i < self.files.len()
            invariant
                i <= self.files@.len(),
                forall|j: int| 0 <= j < i ==> #[trigger] self.files@[j].key() != (tgid, dev, ino),
            decreases self.files@.len() - i,
        {
            if self.files[i].tgid == tgid && self.files[i].dev == dev && self.files[i].ino == ino {
                return Some(i);
            }
            i += 1;
        }
        None
    }

    pub fn new() -> (r: PrefetchModel)
        ensures
            r.wf(),
            forall|key: FileKey| #[trigger] r.history(key) == Seq::<u64>::empty(),
    {
        PrefetchModel { files: Vec::new() }
    }

    /// Records a fault of `key` at page `pgoff` and returns the plan the
    /// stride of the updated history calls for, if any.
    pub fn on_fault(&mut self, tgid: u32, dev: u64, ino: u64, pgoff: u64) -> (r: Option<PrefetchAction>)
        requires
            old(self).wf(),
        ensures
            final(self).wf(),
            final(self).history((tgid, dev, ino)) == push_bounded(old(self).history((tgid, dev, ino)), pgoff),
            forall|k: FileKey| k != (tgid, dev, ino) ==> #[trigger] final(self).history(k) == old(self).history(k),
            plan_matches(final(self).history((tgid, dev, ino)), (tgid, dev, ino), pgoff, r),
    {
        let ghost key: FileKey = (tgid, dev, ino);
        let ghost prev = *self;
        let found = self.find(tgid, dev, ino);
        let i: usize = match found {
            Some(i) => i,
            None => self.files.len(),
        };
        let hist: Vec<u64>;
        if found.is_some() {
            proof {
                self.lemma_history_at(i as int);
            }
            let mut entry = self.files.remove(i);
            if entry.hist.len() >= HISTORY_CAP {
                entry.hist.remove(0);
            }
            entry.hist.push(pgoff);
            assert(entry.hist@ =~= push_bounded(prev.history(key), pgoff));
            hist = entry.hist.clone();
            self.files.insert(i, entry);
        } else {
            assert(prev.history(key) == Seq::<u64>::empty());
            let mut h: Vec<u64> = Vec::new();
            h.push(pgoff);
            assert(h@ =~= push_bounded(prev.history(key), pgoff));
            hist = h.clone();
            self.files.push(FileHistory { tgid, dev, ino, hist: h });
        }
        proof {
            let n = self.files@.len();
            assert forall|j: int, l: int| 0 <= j < l < n implies #[trigger] self.files@[j].key()
                != #[trigger] self.files@[l].key() by {
                if j != i && l != i {
                    assert(self.files@[j] == prev.files@[j]);
                    assert(self.files@[l] == prev.files@[l]);
                }
            }
            self.lemma_history_at(i as int);
            assert forall|k: FileKey| k != key implies #[trigger] self.history(k) == prev.history(k) by {
                if exists|j: int| 0 <= j < prev.files@.len() && prev.files@[j].key() == k {
                    let j = choose|j: int| 0 <= j < prev.files@.len() && prev.files@[j].key() == k;
                    prev.lemma_history_at(j);
                    assert(j != i);
                    assert(self.files@[j] == prev.files@[j]);
                    self.lemma_history_at(j);
                } else {
                    assert forall|j: int| 0 <= j < self.files@.len() implies self.files@[j].key() != k by {
                        if j != i {
                            assert(self.files@[j] == prev.files@[j]);
                        }
                    }
                }
            }
        }
        stride_plan(&hist, tgid, dev, ino, pgoff)
    }
}

fn delta_count_exec(h: &Vec<u64>, d: u64) -> (r: usize)
    requires
        h@.len() >= 7,
    ensures
        r == delta_count(h@, d),
{
    let n = h.len();
    let mut c: usize = 0;
    let mut k: usize = 0;
    while k < 6
        invariant
            n == h@.len() >= 7,
            k <= 6,
            c <= k,
            c == (if k > 0 && recent_delta(h@, 0) == d { 1int } else { 0 }) + (if k > 1 && recent_delta(h@, 1) == d { 1int } else { 0 })
                + (if k > 2 && recent_delta(h@, 2) == d { 1int } else { 0 }) + (if k > 3 && recent_delta(h@, 3) == d { 1int } else { 0 })
                + (if k > 4 && recent_delta(h@, 4) == d { 1int } else { 0 }) + (if k > 5 && recent_delta(h@, 5) == d { 1int } else { 0 }),
        decreases 6 - k,
    {
        let delta = h[n - 6 + k].wrapping_sub(h[n - 7 + k]);
        if delta == d {
            c += 1;
        }
        k += 1;
    }
    c
}

/// The plan for a fault at `pgoff` whose file now has history `h`.
fn stride_plan(h: &Vec<u64>, tgid: u32, dev: u64, ino: u64, pgoff: u64) -> (r: Option<PrefetchAction>)
    ensures
        plan_matches(h@, (tgid, dev, ino), pgoff, r),
{
    let n = h.len();
    if n < 7 {
        return None;
    }
    let d0 = h[n - 6].wrapping_sub(h[n - 7]);
    let d1 = h[n - 5].wrapping_sub(h[n - 6]);
    let cand = if delta_count_exec(h, d0) >= 5 { d0 } else { d1 };
    if cand == 0 || delta_count_exec(h, cand) < 5 {
        assert forall|d: u64| !is_stride(h@, d) by {
            if is_stride(h@, d) {
                assert(d == recent_delta(h@, 0) || d == recent_delta(h@, 1));
            }
        }
        return None;
    }
    let mut ranges: Vec<(u64, u64)> = Vec::new();
    let mut k: u64 = 1;
    while k <= PREFETCH_PAGES
        invariant
            1 <= k <= PREFETCH_PAGES + 1,
            ranges@.len() == k - 1,
            forall|j: int| 0 <= j < k - 1 ==> #[trigger] ranges@[j] == stride_ranges(pgoff, cand)[j],
        decreases PREFETCH_PAGES + 1 - k,
    {
        let off = pgoff.wrapping_add(cand.wrapping_mul(k)).wrapping_mul(PAGE_SIZE);
        ranges.push((off, PREFETCH_LEN));
        k += 1;
    }
    assert(ranges@ =~= stride_ranges(pgoff, cand));
    Some(PrefetchAction { tgid, dev, ino, ranges, backend: PrefetchBackend::Fadvise })
}

/// On a history whose last seven offsets rise by a common `d > 0`, a fault
/// at the last offset `p` yields a plan of eight ranges at `(p + d·k)·4096`,
/// `k = 1..8` (where these fit in 64 bits).
pub proof fn lemma_arithmetic_faults_prefetch(h: Seq<u64>, d: u64, key: FileKey, r: Option<PrefetchAction>)
    requires
        h.len() >= 7,
        d > 0,
        forall|i: int| h.len() - 7 <= i < h.len() - 1 ==> h[i + 1] == #[trigger] h[i] + d,
        (h.last() + 8 * d) * 4096 <= u64::MAX,
        plan_matches(h, key, h.last(), r),
    ensures
        r is Some,
        r->0.ranges@.len() == 8,
        forall|k: int| 1 <= k <= 8 ==> #[trigger] r->0.ranges@[k - 1] == (((h.last() + d * k) * 4096) as u64, 131072u64),
        r->0.backend == PrefetchBackend::Fadvise,
{
    let n = h.len();
    assert(h[n - 6] == h[n - 7] + d);
    assert(h[n - 5] == h[n - 6] + d);
    assert(h[n - 4] == h[n - 5] + d);
    assert(h[n - 3] == h[n - 4] + d);
    assert(h[n - 2] == h[n - 3] + d);
    assert(h[n - 1] == h[n - 2] + d);
    assert(is_stride(h, d));
    let a = r->0;
    let e = choose|e: u64| is_stride(h, e) && a.tgid == key.0 && a.dev == key.1 && a.ino == key.2
        && a.ranges@ == stride_ranges(h.last(), e) && a.backend == PrefetchBackend::Fadvise;
    lemma_stride_unique(h, d, e);
    assert forall|k: int| 1 <= k <= 8 implies #[trigger] a.ranges@[k - 1] == (((h.last() + d * k) * 4096) as u64, 131072u64) by {
        assert(d * k <= 8 * d) by (nonlinear_arith) requires 1 <= k <= 8, d > 0;
        assert((h.last() + d * k) * 4096 <= (h.last() + 8 * d) * 4096) by (nonlinear_arith)
            requires d * k <= 8 * d;
    }
}

} // verus!
