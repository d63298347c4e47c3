//! The bounded, dynamically-growing sparse histogram that backs the sketch.
//!
//! A [`Store`] maps signed integer bucket keys to counts. It is anchored by
//! the first insertion, extends its contiguous key window leftward or
//! rightward as out-of-range keys arrive, and once the window would exceed
//! its capacity it collapses: counts that no longer fit are folded into the
//! lowest retained bucket instead of being rejected, so no mass is ever lost.

use vstd::prelude::*;

verus! {

/// Number of bins a store starts with, and the unit of leftward growth.
pub const INITIAL_NUM_BINS: i64 = 128;

/// Largest total count a store is specified to represent; keeps every
/// internal key computation comfortably inside `i64`.
pub const MAX_COUNT: u64 = 0x10_0000_0000_0000;

/// Sum of the counts in a sequence of bins.
pub(crate) open spec fn seq_sum(s: Seq<u64>) -> int
    decreases s.len(),
{
    if s.len() == 0 {
        0
    } else {
        seq_sum(s.drop_last()) + s.last()
    }
}

pub(crate) proof fn lemma_seq_sum_nonneg(s: Seq<u64>)
    ensures
        seq_sum(s) >= 0,
    decreases s.len(),
{
    if s.len() > 0 {
        lemma_seq_sum_nonneg(s.drop_last());
    }
}

pub(crate) proof fn lemma_seq_sum_push(s: Seq<u64>, x: u64)
    ensures
        seq_sum(s.push(x)) == seq_sum(s) + x,
{
    assert(s.push(x).drop_last() =~= s);
}

pub(crate) proof fn lemma_seq_sum_take_succ(s: Seq<u64>, i: int)
    requires
        0 <= i < s.len(),
    ensures
        seq_sum(s.take(i + 1)) == seq_sum(s.take(i)) + s[i],
{
    assert(s.take(i + 1).drop_last() =~= s.take(i));
    assert(s.take(i + 1).last() == s[i]);
}

pub(crate) proof fn lemma_seq_sum_split(s: Seq<u64>, i: int)
    requires
        0 <= i <= s.len(),
    ensures
        seq_sum(s) == seq_sum(s.take(i)) + seq_sum(s.skip(i)),
    decreases s.len() - i,
{
    if i == s.len() {
        assert(s.take(i) =~= s);
        assert(s.skip(i).len() == 0);
    } else {
        lemma_seq_sum_take_succ(s, i);
        lemma_seq_sum_split(s, i + 1);
        assert(s.skip(i).drop_first() =~= s.skip(i + 1));
        assert(seq_sum(s.skip(i)) == s[i] + seq_sum(s.skip(i + 1))) by {
            lemma_seq_sum_head(s.skip(i));
        }
    }
}

pub(crate) proof fn lemma_seq_sum_head(s: Seq<u64>)
    requires
        s.len() > 0,
    ensures
        seq_sum(s) == s[0] + seq_sum(s.drop_first()),
    decreases s.len(),
{
    if s.len() == 1 {
        assert(s.drop_first().len() == 0);
        assert(seq_sum(s.drop_first()) == 0);
        assert(s.drop_last().len() == 0);
        assert(seq_sum(s.drop_last()) == 0);
        assert(seq_sum(s) == seq_sum(s.drop_last()) + s.last());
        assert(s.last() == s[0]);
    } else {
        lemma_seq_sum_head(s.drop_last());
        assert(s.drop_last().drop_first() =~= s.drop_first().drop_last());
        assert(s.drop_last()[0] == s[0]);
        assert(s.drop_first().last() == s.last());
        assert(s.drop_first().len() == s.len() - 1);
        assert(seq_sum(s.drop_first()) == seq_sum(s.drop_first().drop_last())
            + s.drop_first().last());
        assert(seq_sum(s) == seq_sum(s.drop_last()) + s.last());
    }
}

pub(crate) proof fn lemma_seq_sum_update(s: Seq<u64>, i: int, v: u64)
    requires
        0 <= i < s.len(),
    ensures
        seq_sum(s.update(i, v)) == seq_sum(s) - s[i] + v,
    decreases s.len(),
{
    if i == s.len() - 1 {
        assert(s.update(i, v).drop_last() =~= s.drop_last());
        assert(s.update(i, v).last() == v);
    } else {
        lemma_seq_sum_update(s.drop_last(), i, v);
        assert(s.update(i, v).drop_last() =~= s.drop_last().update(i, v));
        assert(s.update(i, v).last() == s.last());
    }
}

pub(crate) proof fn lemma_seq_sum_elem(s: Seq<u64>, i: int)
    requires
        0 <= i < s.len(),
    ensures
        s[i] <= seq_sum(s),
{
    lemma_seq_sum_split(s, i);
    lemma_seq_sum_head(s.skip(i));
    lemma_seq_sum_nonneg(s.take(i));
    lemma_seq_sum_nonneg(s.skip(i).drop_first());
    assert(s.skip(i)[0] == s[i]);
}

pub(crate) proof fn lemma_seq_sum_prefix_le(s: Seq<u64>, i: int)
    requires
        0 <= i <= s.len(),
    ensures
        seq_sum(s.take(i)) <= seq_sum(s),
{
    lemma_seq_sum_split(s, i);
    lemma_seq_sum_nonneg(s.skip(i));
}

pub(crate) proof fn lemma_seq_sum_zero_elems(s: Seq<u64>)
    requires
        seq_sum(s) == 0,
    ensures
        forall|i: int| 0 <= i < s.len() ==> s[i] == 0,
{
    assert forall|i: int| 0 <= i < s.len() implies s[i] == 0 by {
        lemma_seq_sum_elem(s, i);
    }
}

/// The larger of two integers.
pub open spec fn max_i(x: int, y: int) -> int {
    if x >= y {
        x
    } else {
        y
    }
}

/// A capacity-bounded sparse histogram over signed integer bucket keys.
///
/// The bins cover the contiguous key window `[min_key, max_key]` once the
/// store holds at least one count; `count` is always the sum of all bins.
#[derive(Clone)]
pub struct Store {
    bins: Vec<u64>,
    count: u64,
    min_key: i64,
    max_key: i64,
    max_num_bins: i64,
}

impl Store {
    /// Capacity ceiling this store was created with.
    pub closed spec fn capacity(self) -> int {
        self.max_num_bins as int
    }

    /// Total number of samples recorded.
    pub closed spec fn spec_count(self) -> int {
        self.count as int
    }

    /// Lowest key of the current bin window.
    pub closed spec fn spec_min_key(self) -> int {
        self.min_key as int
    }

    /// Highest key of the current bin window.
    pub closed spec fn spec_max_key(self) -> int {
        self.max_key as int
    }

    /// Number of bins currently allocated.
    pub closed spec fn spec_len(self) -> int {
        self.bins@.len() as int
    }

    /// The count recorded for bucket key `k`.
    pub closed spec fn bucket(self, k: int) -> int {
        if self.count == 0 {
            0
        } else if self.min_key <= k <= self.max_key {
            self.bins@[k - self.min_key] as int
        } else {
            0
        }
    }

    /// Sum of the counts of every bucket with key at most `a`.
    pub closed spec fn mass_upto(self, a: int) -> int {
        if self.count == 0 || a < self.min_key {
            0
        } else if a >= self.max_key {
            seq_sum(self.bins@)
        } else {
            seq_sum(self.bins@.take(a - self.min_key + 1))
        }
    }

    /// All of [`Store::wf`] except the lower bound on `min_key`, which
    /// leftward growth can only re-establish once the caller has accounted
    /// for the keys it grows toward.
    spec fn wf_keys_relaxed(self) -> bool {
        &&& INITIAL_NUM_BINS <= self.max_num_bins <= 0x8000_0000
        &&& 1 <= self.bins@.len() <= self.max_num_bins + INITIAL_NUM_BINS - 1
        &&& self.count as int == seq_sum(self.bins@)
        &&& self.count <= MAX_COUNT
        &&& i32::MIN <= self.max_key <= i32::MAX
        &&& self.count == 0 ==> self.min_key == 0 && self.max_key == 0
        &&& self.count > 0 ==> self.bins@.len() == self.max_key - self.min_key + 1
        &&& self.min_key <= self.max_key
    }

    /// Structural invariant of a store.
    pub closed spec fn wf(self) -> bool {
        &&& self.wf_keys_relaxed()
        &&& i32::MIN - self.max_num_bins - 128 * (self.count as int) <= self.min_key
    }

    /// Create an empty store that may grow to `max_num_bins` bins.
    pub fn new(max_num_bins: i32) -> (s: Store)
        requires
            max_num_bins >= INITIAL_NUM_BINS,
        ensures
            s.wf(),
            s.spec_count() == 0,
            s.capacity() == max_num_bins,
            s.spec_len() == INITIAL_NUM_BINS,
            forall|k: int| s.bucket(k) == 0,
    {
        Store {
            bins: zero_vec(INITIAL_NUM_BINS as usize),
            count: 0,
            min_key: 0,
            max_key: 0,
            max_num_bins: max_num_bins as i64,
        }
    }

    /// Number of bins currently allocated.
    pub fn length(&self) -> (r: usize)
        ensures
            r == self.spec_len(),
    {
        self.bins.len()
    }

    /// Total number of samples recorded.
    pub fn count(&self) -> (r: u64)
        ensures
            r == self.spec_count(),
    {
        self.count
    }

    /// Capacity ceiling this store was created with.
    pub fn bin_capacity(&self) -> (r: i64)
        ensures
            r == self.capacity(),
    {
        self.max_num_bins
    }

    /// Extend the bin window leftward so that it covers `key`, or, if that
    /// would exceed the capacity, leave the window as it is: the caller then
    /// folds the out-of-range count into the lowest bucket.
    fn grow_left(&mut self, key: i64)
        requires
            old(self).wf_keys_relaxed(),
            old(self).spec_count() > 0,
            key < old(self).spec_min_key(),
            key > -0x2000_0000_0000_0000,
        ensures
            final(self).wf_keys_relaxed(),
            final(self).capacity() == old(self).capacity(),
            final(self).spec_count() == old(self).spec_count(),
            final(self).spec_max_key() == old(self).spec_max_key(),
            left_grown_min_ok(
                old(self).spec_min_key(),
                old(self).spec_max_key(),
                old(self).spec_len(),
                old(self).capacity(),
                key as int,
                final(self).spec_min_key(),
            ),
            forall|k: int| final(self).bucket(k) == old(self).bucket(k),
    {
        if self.bins.len() as i64 >= self.max_num_bins {
            return;
        }
        let new_min: i64;
        if self.max_key - key >= self.max_num_bins {
            new_min = self.max_key - self.max_num_bins + 1;
        } else {
            let mut mk = self.min_key;
            while mk > key
                invariant
                    mk <= self.min_key,
                    mk > key - 128,
                    (self.min_key - mk) % 128 == 0,
                decreases mk - key + 128,
            {
                mk = mk - 128;
            }
            new_min = mk;
        }
        assert(new_min <= self.min_key);
        assert(self.max_key - new_min + 1 <= self.max_num_bins + 127);
        let offset = (self.min_key - new_min) as usize;
        let new_len = (self.max_key - new_min + 1) as usize;
        let ghost old_bins = self.bins@;
        let mut tmp = zero_vec(new_len);
        let mut i: usize = 0;
        while i < self.bins.len()
            invariant
                i <= self.bins@.len(),
                tmp@.len() == new_len,
                new_len == offset + self.bins@.len(),
                forall|j: int| 0 <= j < i ==> tmp@[offset + j] == self.bins@[j],
                forall|j: int|
                    0 <= j < tmp@.len() && !(offset <= j < offset + i) ==> tmp@[j] == 0,
                seq_sum(tmp@) == seq_sum(self.bins@.take(i as int)),
            decreases self.bins@.len() - i,
        {
            let v = self.bins[i];
            proof {
                lemma_seq_sum_update(tmp@, offset + i, v);
                lemma_seq_sum_take_succ(self.bins@, i as int);
            }
            tmp.set(offset + i, v);
            i = i + 1;
        }
        proof {
            assert(self.bins@.take(self.bins@.len() as int) =~= self.bins@);
        }
        self.bins = tmp;
        self.min_key = new_min;
        proof {
            assert forall|k: int| self.bucket(k) == old(self).bucket(k) by {
                if old(self).spec_min_key() <= k <= old(self).spec_max_key() {
                    assert(self.bins@[k - new_min] == old_bins[k - old(self).spec_min_key()]);
                }
            }
        }
    }
    /// Extend the bin window rightward so that it ends at `key`. If the
    /// widened window would exceed the capacity, the window slides right
    /// instead and every count below its new lower end is folded into the
    /// lowest retained bucket.
    fn grow_right(&mut self, key: i64)
        requires
            old(self).wf_keys_relaxed(),
            old(self).spec_count() > 0,
            key >= old(self).spec_max_key(),
            key <= i32::MAX,
        ensures
            final(self).wf_keys_relaxed(),
            final(self).capacity() == old(self).capacity(),
            final(self).spec_count() == old(self).spec_count(),
            final(self).spec_max_key() == key,
            final(self).spec_min_key() == (if key - old(self).spec_min_key()
                >= old(self).capacity() {
                key - old(self).capacity() + 1
            } else {
                old(self).spec_min_key()
            }),
            forall|k: int|
                final(self).bucket(k) == fold_at(*old(self), final(self).spec_min_key(), k),
    {
        let m = self.max_num_bins;
        let ghost old_self = *self;
        if key - self.max_key >= m {
            // the new window lies beyond all retained data: every existing
            // count collapses into the new lowest bucket
            let mut tmp = zero_vec(m as usize);
            proof {
                lemma_seq_sum_update(tmp@, 0, self.count);
            }
            tmp.set(0, self.count);
            self.bins = tmp;
            self.max_key = key;
            self.min_key = key - m + 1;
            proof {
                assert forall|k: int| self.bucket(k) == fold_at(old_self, self.min_key as int, k)
                by {
                    if k == self.min_key as int {
                        assert(old_self.mass_upto(k) == seq_sum(old_self.bins@));
                    }
                }
            }
        } else if key - self.min_key >= m {
            // slide the window right: counts below the new lower end are
            // summed and folded into the lowest retained bucket
            let new_min = key - m + 1;
            let cut = (new_min - self.min_key) as usize;
            assert(1 <= cut < self.bins@.len());
            let mut n: u64 = 0;
            let mut i: usize = 0;
            while i < cut
                invariant
                    i <= cut,
                    n == seq_sum(self.bins@.take(i as int)),
                decreases cut - i,
            {
                proof {
                    lemma_seq_sum_take_succ(self.bins@, i as int);
                    lemma_seq_sum_prefix_le(self.bins@, i as int + 1);
                }
                n = n + self.bins[i];
                i = i + 1;
            }
            let keep = self.bins.len() - cut;
            assert(keep == self.max_key - new_min + 1);
            assert(keep <= m);
            let mut tmp = zero_vec(m as usize);
            let mut j: usize = 0;
            while j < keep
                invariant
                    j <= keep,
                    tmp@.len() == m,
                    forall|t: int| 0 <= t < j ==> tmp@[t] == self.bins@[cut + t],
                    forall|t: int| j <= t < m ==> tmp@[t] == 0,
                    seq_sum(tmp@) == seq_sum(self.bins@.skip(cut as int).take(j as int)),
                decreases keep - j,
            {
                let v = self.bins[cut + j];
                proof {
                    lemma_seq_sum_update(tmp@, j as int, v);
                    lemma_seq_sum_take_succ(self.bins@.skip(cut as int), j as int);
                    assert(self.bins@.skip(cut as int)[j as int] == self.bins@[cut + j]);
                }
                tmp.set(j, v);
                j = j + 1;
            }
            proof {
                assert(self.bins@.skip(cut as int).take(keep as int) =~= self.bins@.skip(
                    cut as int,
                ));
                lemma_seq_sum_split(self.bins@, cut as int);
                lemma_seq_sum_take_succ(self.bins@, cut as int);
                lemma_seq_sum_prefix_le(self.bins@, cut as int + 1);
            }
            let t0 = tmp[0];
            proof {
                lemma_seq_sum_head(tmp@);
                lemma_seq_sum_update(tmp@, 0, (t0 + n) as u64);
            }
            tmp.set(0, t0 + n);
            self.bins = tmp;
            self.max_key = key;
            self.min_key = new_min;
            proof {
                assert(seq_sum(self.bins@) == seq_sum(old_self.bins@));
                assert forall|k: int| self.bucket(k) == fold_at(old_self, new_min as int, k) by {
                    if k == new_min as int {
                        assert(old_self.mass_upto(k) == seq_sum(old_self.bins@.take(
                            cut as int + 1,
                        )));
                        assert(self.bins@[0] == old_self.bins@[cut as int] + seq_sum(
                            old_self.bins@.take(cut as int),
                        ));
                    } else if (new_min as int) < k && k <= old_self.spec_max_key() {
                        assert(self.bins@[k - new_min] == old_self.bins@[k - new_min + cut]);
                    } else if old_self.spec_max_key() < k && k <= (self.max_key as int) {
                        assert(self.bins@[k - new_min] == 0);
                    }
                }
            }
        } else {
            // simply widen the window to the right
            let new_len = (key - self.min_key + 1) as usize;
            let ghost old_bins = self.bins@;
            let mut tmp = zero_vec(new_len);
            let mut i: usize = 0;
            while i < self.bins.len()
                invariant
                    i <= self.bins@.len(),
                    tmp@.len() == new_len,
                    self.bins@.len() <= new_len,
                    forall|j: int| 0 <= j < i ==> tmp@[j] == self.bins@[j],
                    forall|j: int| i <= j < tmp@.len() ==> tmp@[j] == 0,
                    seq_sum(tmp@) == seq_sum(self.bins@.take(i as int)),
                decreases self.bins@.len() - i,
            {
                let v = self.bins[i];
                proof {
                    lemma_seq_sum_update(tmp@, i as int, v);
                    lemma_seq_sum_take_succ(self.bins@, i as int);
                }
                tmp.set(i, v);
                i = i + 1;
            }
            proof {
                assert(self.bins@.take(self.bins@.len() as int) =~= self.bins@);
            }
            self.bins = tmp;
            self.max_key = key;
            proof {
                assert forall|k: int| self.bucket(k) == fold_at(old_self, self.min_key as int, k)
                by {
                    if k == self.min_key as int {
                        lemma_seq_sum_take_succ(old_self.bins@, 0);
                        assert(old_self.bins@.take(0) =~= Seq::<u64>::empty());
                        assert(old_self.mass_upto(k) == old_self.bins@[0]);
                    } else if (self.min_key as int) < k && k <= old_self.spec_max_key() {
                        assert(self.bins@[k - self.min_key] == old_bins[k - self.min_key]);
                    }
                }
            }
        }
    }
    /// Record one sample in the bucket for `key`, anchoring the window on
    /// the first insertion and growing or collapsing it as needed. On a
    /// non-empty store the new lowest key follows [`added_min_ok`], every
    /// count below it is folded into it, and the sample lands in the bucket
    /// for `key` — or in the lowest bucket, if `key` fell below a window
    /// that could not grow further.
    pub fn add(&mut self, key: i32)
        requires
            old(self).wf(),
            old(self).spec_count() < MAX_COUNT,
        ensures
            final(self).wf(),
            final(self).capacity() == old(self).capacity(),
            final(self).spec_count() == old(self).spec_count() + 1,
            old(self).spec_count() == 0 ==> {
                &&& final(self).spec_max_key() == key
                &&& final(self).spec_min_key() == key - old(self).spec_len() + 1
                &&& forall|k: int|
                    final(self).bucket(k) == (if k == key { 1int } else { 0int })
            },
            old(self).spec_count() > 0 ==> {
                &&& final(self).spec_max_key() == max_i(old(self).spec_max_key(), key as int)
                &&& added_min_ok(*old(self), key as int, final(self).spec_min_key())
                &&& forall|k: int|
                    final(self).bucket(k) == fold_at(*old(self), final(self).spec_min_key(), k)
                        + (if k == max_i(key as int, final(self).spec_min_key()) {
                        1int
                    } else {
                        0int
                    })
            },
    {
        let key = key as i64;
        if self.count == 0 {
            self.max_key = key;
            self.min_key = key - self.bins.len() as i64 + 1;
        }
        let ghost anchored = *self;
        if key < self.min_key {
            self.grow_left(key);
        } else if key > self.max_key {
            self.grow_right(key);
        }
        let ghost grown = *self;
        let idx: usize = if key >= self.min_key {
            (key - self.min_key) as usize
        } else {
            0
        };
        assert(idx < self.bins@.len());
        let v = self.bins[idx];
        proof {
            lemma_seq_sum_elem(self.bins@, idx as int);
            lemma_seq_sum_update(self.bins@, idx as int, (v + 1) as u64);
            if old(self).count == 0 {
                lemma_seq_sum_zero_elems(self.bins@);
            }
        }
        self.bins.set(idx, v + 1);
        self.count = self.count + 1;
        proof {
            let fmin = self.min_key as int;
            let spot = max_i(key as int, fmin);
            assert(grown.spec_min_key() + idx == spot);
            assert forall|k: int|
                self.bucket(k) == grown.bucket(k) + (if k == spot { 1int } else { 0int }) by {}
            if old(self).spec_count() == 0 {
                assert forall|k: int|
                    self.bucket(k) == (if k == key as int { 1int } else { 0int }) by {}
            } else {
                assert forall|k: int| grown.bucket(k) == fold_at(*old(self), fmin, k) by {
                    if fmin == old(self).spec_min_key() {
                        if k == fmin {
                            lemma_seq_sum_take_succ(old(self).bins@, 0);
                            assert(old(self).bins@.take(0) =~= Seq::<u64>::empty());
                            assert(old(self).mass_upto(k) == old(self).bins@[0]);
                        }
                    }
                    if key < anchored.min_key {
                        assert(grown.bucket(k) == old(self).bucket(k));
                        if k < fmin || (k == fmin && fmin < old(self).spec_min_key()) {
                            assert(old(self).bucket(k) == 0);
                        }
                    }
                }
            }
        }
    }
    /// The key of the bucket containing the sample of 1-based rank `rank`:
    /// the first key, in increasing order, whose cumulative count reaches
    /// `rank`. Returns the highest key if `rank` exceeds the total count.
    pub fn key_at_rank(&self, rank: u64) -> (r: i64)
        requires
            self.wf(),
        ensures
            rank == 0 ==> r == self.spec_min_key(),
            1 <= rank <= self.spec_count() ==> {
                &&& self.spec_min_key() <= r <= self.spec_max_key()
                &&& self.mass_upto(r as int) >= rank
                &&& forall|k: int| self.spec_min_key() <= k < r ==> self.mass_upto(k) < rank
            },
            rank > self.spec_count() ==> r == self.spec_max_key(),
    {
        let mut n: u64 = 0;
        let mut i: usize = 0;
        while i < self.bins.len()
            invariant
                i <= self.bins@.len(),
                n == seq_sum(self.bins@.take(i as int)),
                n < rank || (rank == 0 && i == 0),
            decreases self.bins@.len() - i,
        {
            proof {
                lemma_seq_sum_take_succ(self.bins@, i as int);
                lemma_seq_sum_prefix_le(self.bins@, i as int + 1);
            }
            n = n + self.bins[i];
            if n >= rank {
                proof {
                    if 1 <= rank && self.count > 0 {
                        assert(i < self.max_key - self.min_key + 1);
                        if self.min_key + i == self.max_key as int {
                            assert(self.bins@.take(i as int + 1) =~= self.bins@);
                        }
                        assert(self.mass_upto(self.min_key + i as int) >= rank);
                        assert forall|k: int|
                            self.spec_min_key() <= k < self.min_key + i implies self.mass_upto(
                            k,
                        ) < rank by {
                            let j = k - self.min_key + 1;
                            assert(self.bins@.take(i as int).take(j) =~= self.bins@.take(j));
                            lemma_seq_sum_prefix_le(self.bins@.take(i as int), j);
                        }
                    }
                    if rank > self.spec_count() {
                        lemma_seq_sum_prefix_le(self.bins@, i as int + 1);
                        assert(false);
                    }
                }
                return self.min_key + i as i64;
            }
            i = i + 1;
        }
        proof {
            assert(self.bins@.take(self.bins@.len() as int) =~= self.bins@);
        }
        self.max_key
    }
    /// Absorb every count of `o` into this store's fixed window: counts for
    /// keys inside the window add into their buckets, counts below it fold
    /// into the lowest bucket. Only `bins` changes; the caller accounts for
    /// the count total.
    fn fold_in(&mut self, o: &Store)
        requires
            old(self).wf_keys_relaxed(),
            o.wf(),
            old(self).spec_count() > 0,
            o.spec_count() > 0,
            old(self).spec_count() + o.spec_count() <= MAX_COUNT,
            o.spec_max_key() <= old(self).spec_max_key(),
        ensures
            final(self).min_key == old(self).min_key,
            final(self).max_key == old(self).max_key,
            final(self).count == old(self).count,
            final(self).max_num_bins == old(self).max_num_bins,
            final(self).bins@.len() == old(self).bins@.len(),
            seq_sum(final(self).bins@) == seq_sum(old(self).bins@) + o.spec_count(),
            forall|k: int|
                final(self).bucket(k) == old(self).bucket(k) + fold_at(
                    *o,
                    old(self).spec_min_key(),
                    k,
                ),
    {
        let fmin = self.min_key;
        let ghost s1 = *self;
        // counts of `o` strictly below the window
        let mut below: u64 = 0;
        let ghost lim: int = if o.min_key < fmin {
            if fmin <= o.max_key {
                fmin - o.min_key
            } else {
                o.bins@.len() as int
            }
        } else {
            0
        };
        if o.min_key < fmin {
            let lim_e: usize = if fmin <= o.max_key {
                (fmin - o.min_key) as usize
            } else {
                o.bins.len()
            };
            assert(lim_e == lim);
            let mut i: usize = 0;
            while i < lim_e
                invariant
                    i <= lim_e,
                    below == seq_sum(o.bins@.take(i as int)),
                decreases lim_e - i,
            {
                proof {
                    lemma_seq_sum_take_succ(o.bins@, i as int);
                    lemma_seq_sum_prefix_le(o.bins@, i as int + 1);
                }
                below = below + o.bins[i];
                i = i + 1;
            }
        }
        proof {
            lemma_seq_sum_prefix_le(o.bins@, lim);
            assert(below == seq_sum(o.bins@.take(lim)));
        }
        // counts of `o` inside the window, bucket by bucket
        let start = if fmin > o.min_key {
            fmin
        } else {
            o.min_key
        };
        let ghost o_lo: int = start - o.min_key;
        if start <= o.max_key {
            let self_off = (start - self.min_key) as usize;
            let o_off = (start - o.min_key) as usize;
            let span = (o.max_key - start + 1) as usize;
            assert(self_off + span <= self.bins@.len());
            assert(o_off + span == o.bins@.len());
            let mut t: usize = 0;
            while t < span
                invariant
                    t <= span,
                    self.bins@.len() == s1.bins@.len(),
                    self.min_key == s1.min_key,
                    self.max_key == s1.max_key,
                    self.count == s1.count,
                    self.max_num_bins == s1.max_num_bins,
                    seq_sum(self.bins@) == seq_sum(s1.bins@) + seq_sum(
                        o.bins@.skip(o_lo).take(t as int),
                    ),
                    forall|p: int|
                        0 <= p < self.bins@.len() && !(self_off <= p < self_off + t)
                            ==> self.bins@[p] == s1.bins@[p],
                    forall|p: int|
                        self_off <= p < self_off + t ==> self.bins@[p] == s1.bins@[p]
                            + o.bins@[p - self_off + o_lo],
                decreases span - t,
            {
                let v = self.bins[self_off + t];
                let w = o.bins[o_off + t];
                proof {
                    lemma_seq_sum_elem(self.bins@, self_off + t);
                    lemma_seq_sum_take_succ(o.bins@.skip(o_lo), t as int);
                    assert(o.bins@.skip(o_lo)[t as int] == o.bins@[o_lo + t]);
                    lemma_seq_sum_split(o.bins@, o_lo);
                    lemma_seq_sum_prefix_le(o.bins@.skip(o_lo), t as int + 1);
                    lemma_seq_sum_nonneg(o.bins@.take(o_lo));
                    lemma_seq_sum_update(self.bins@, (self_off + t) as int, (v + w) as u64);
                }
                self.bins.set(self_off + t, v + w);
                t = t + 1;
            }
            proof {
                assert(o.bins@.skip(o_lo).take(span as int) =~= o.bins@.skip(o_lo));
            }
        }
        // fold the below-window counts into the lowest bucket
        let v0 = self.bins[0];
        proof {
            lemma_seq_sum_elem(self.bins@, 0);
            lemma_seq_sum_split(o.bins@, lim);
            if start <= o.max_key {
                assert(o_lo == lim || o_lo == 0);
                if o_lo != lim {
                    assert(lim == 0);
                    lemma_seq_sum_nonneg(o.bins@.skip(o_lo));
                }
                lemma_seq_sum_nonneg(o.bins@.take(o_lo));
                lemma_seq_sum_split(o.bins@, o_lo);
            } else {
                assert(lim == o.bins@.len());
                assert(o.bins@.take(lim) =~= o.bins@);
            }
            lemma_seq_sum_update(self.bins@, 0, (v0 + below) as u64);
        }
        self.bins.set(0, v0 + below);
        proof {
            let a = s1.spec_min_key();
            assert forall|k: int| self.bucket(k) == s1.bucket(k) + fold_at(*o, a, k) by {
                if k == a {
                    assert(self.bins@[0] == s1.bins@[0] + below + (if o.spec_min_key() <= a
                        <= o.spec_max_key() {
                        o.bins@[a - o.spec_min_key()] as int
                    } else {
                        0int
                    }));
                    if o.spec_min_key() <= a <= o.spec_max_key() {
                        lemma_seq_sum_take_succ(o.bins@, a - o.spec_min_key());
                        assert(o.mass_upto(a) == seq_sum(o.bins@.take(a - o.spec_min_key() + 1)));
                    } else if a < o.spec_min_key() {
                        assert(o.mass_upto(a) == 0);
                    } else {
                        assert(o.mass_upto(a) == seq_sum(o.bins@));
                    }
                } else if a < k && k <= s1.spec_max_key() {
                    if o.spec_min_key() <= k <= o.spec_max_key() {
                        assert(self.bins@[k - a] == s1.bins@[k - a] + o.bins@[k - o.spec_min_key()]);
                    } else {
                        assert(self.bins@[k - a] == s1.bins@[k - a]);
                    }
                }
            }
        }
    }
    /// Absorb another store's counts into this one. Either store may be
    /// empty; otherwise the receiver's window is reconciled with the donor's
    /// under the usual growth and collapse rules, and every donor count
    /// lands in its own bucket or folds into the new lowest bucket.
    pub fn merge(&mut self, o: &Store)
        requires
            old(self).wf(),
            o.wf(),
            old(self).capacity() == o.capacity(),
            old(self).spec_count() + o.spec_count() <= MAX_COUNT,
        ensures
            final(self).wf(),
            final(self).capacity() == old(self).capacity(),
            final(self).spec_count() == old(self).spec_count() + o.spec_count(),
            o.spec_count() == 0 ==> {
                &&& final(self).spec_min_key() == old(self).spec_min_key()
                &&& final(self).spec_max_key() == old(self).spec_max_key()
                &&& final(self).spec_len() == old(self).spec_len()
                &&& forall|k: int| final(self).bucket(k) == old(self).bucket(k)
            },
            old(self).spec_count() == 0 && o.spec_count() > 0 ==> {
                &&& final(self).spec_min_key() == o.spec_min_key()
                &&& final(self).spec_max_key() == o.spec_max_key()
                &&& final(self).spec_len() == o.spec_len()
                &&& forall|k: int| final(self).bucket(k) == o.bucket(k)
            },
            old(self).spec_count() > 0 && o.spec_count() > 0 ==> {
                &&& final(self).spec_max_key() == max_i(
                    old(self).spec_max_key(),
                    o.spec_max_key(),
                )
                &&& merged_min_ok(*old(self), *o, final(self).spec_min_key())
                &&& forall|k: int|
                    final(self).bucket(k) == fold_at(*old(self), final(self).spec_min_key(), k)
                        + fold_at(*o, final(self).spec_min_key(), k)
            },
    {
        if o.count == 0 {
            return;
        }
        if self.count == 0 {
            // adopt the donor's contents outright
            self.bins = copy_bins(&o.bins);
            self.min_key = o.min_key;
            self.max_key = o.max_key;
            self.count = o.count;
            return;
        }
        let ghost s0 = *self;
        if self.max_key > o.max_key {
            if o.min_key < self.min_key {
                self.grow_left(o.min_key);
            }
            let ghost g = *self;
            self.fold_in(o);
            let ghost mid = *self;
            self.count = self.count + o.count;
            proof {
                let fmin = self.min_key as int;
                assert forall|k: int|
                    self.bucket(k) == fold_at(s0, fmin, k) + fold_at(*o, fmin, k) by {
                    assert(mid.bucket(k) == g.bucket(k) + fold_at(*o, fmin, k));
                    assert(self.bucket(k) == mid.bucket(k));
                    if fmin == s0.spec_min_key() && k == fmin {
                        lemma_seq_sum_take_succ(s0.bins@, 0);
                        assert(s0.bins@.take(0) =~= Seq::<u64>::empty());
                        assert(s0.mass_upto(k) == s0.bins@[0]);
                    }
                    assert(g.bucket(k) == fold_at(s0, fmin, k));
                }
            }
        } else if o.min_key < self.min_key {
            // the donor's window contains this one: combine into a copy of
            // the donor's bins
            let mut tmp = copy_bins(&o.bins);
            let off = (self.min_key - o.min_key) as usize;
            assert(off + self.bins@.len() <= tmp@.len());
            let ghost s_bins = self.bins@;
            let mut t: usize = 0;
            while t < self.bins.len()
                invariant
                    t <= self.bins@.len(),
                    tmp@.len() == o.bins@.len(),
                    forall|p: int|
                        0 <= p < tmp@.len() && !(off <= p < off + t) ==> tmp@[p] == o.bins@[p],
                    forall|p: int|
                        off <= p < off + t ==> tmp@[p] == o.bins@[p] + self.bins@[p - off],
                    seq_sum(tmp@) == seq_sum(o.bins@) + seq_sum(self.bins@.take(t as int)),
                decreases self.bins@.len() - t,
            {
                let v = tmp[off + t];
                let w = self.bins[t];
                proof {
                    lemma_seq_sum_elem(tmp@, off + t);
                    lemma_seq_sum_take_succ(self.bins@, t as int);
                    lemma_seq_sum_prefix_le(self.bins@, t as int + 1);
                    lemma_seq_sum_update(tmp@, (off + t) as int, (v + w) as u64);
                }
                tmp.set(off + t, v + w);
                t = t + 1;
            }
            proof {
                assert(self.bins@.take(self.bins@.len() as int) =~= self.bins@);
            }
            self.bins = tmp;
            self.min_key = o.min_key;
            self.max_key = o.max_key;
            self.count = self.count + o.count;
            proof {
                let fmin = self.min_key as int;
                assert forall|k: int|
                    self.bucket(k) == fold_at(s0, fmin, k) + fold_at(*o, fmin, k) by {
                    if k == fmin {
                        lemma_seq_sum_take_succ(o.bins@, 0);
                        assert(o.bins@.take(0) =~= Seq::<u64>::empty());
                        assert(o.mass_upto(k) == o.bins@[0]);
                        assert(s0.mass_upto(k) == 0);
                    } else if fmin < k && k <= o.spec_max_key() {
                        if s0.spec_min_key() <= k <= s0.spec_max_key() {
                            assert(self.bins@[k - fmin] == o.bins@[k - fmin] + s_bins[k
                                - s0.spec_min_key()]);
                        } else {
                            assert(self.bins@[k - fmin] == o.bins@[k - fmin]);
                        }
                    }
                }
            }
        } else {
            self.grow_right(o.max_key);
            let ghost g = *self;
            self.fold_in(o);
            let ghost mid = *self;
            self.count = self.count + o.count;
            proof {
                let fmin = self.min_key as int;
                assert forall|k: int|
                    self.bucket(k) == fold_at(s0, fmin, k) + fold_at(*o, fmin, k) by {
                    assert(mid.bucket(k) == g.bucket(k) + fold_at(*o, fmin, k));
                    assert(self.bucket(k) == mid.bucket(k));
                    assert(g.bucket(k) == fold_at(s0, fmin, k));
                }
            }
        }
    }
}

/// Bucket contents of `s` after every bucket below `floor` is folded into
/// the bucket at `floor`.
pub open spec fn fold_at(s: Store, floor: int, k: int) -> int {
    if k < floor {
        0
    } else if k == floor {
        s.mass_upto(floor)
    } else {
        s.bucket(k)
    }
}

/// Exact characterisation of the lowest key after leftward growth toward
/// `key`, for a store with window `[a, b]`, `len` bins and capacity `m`:
/// no growth at capacity; otherwise the window is widened in increments of
/// 128 keys to cover `key`, unless even the capacity-sized window ending at
/// `b` excludes `key`, in which case that window is taken.
pub open spec fn left_grown_min_ok(a: int, b: int, len: int, m: int, key: int, a2: int) -> bool {
    if len >= m {
        a2 == a
    } else if b - key >= m {
        a2 == b - m + 1
    } else {
        &&& a2 <= key
        &&& key - a2 < 128
        &&& (a - a2) % 128 == 0
    }
}

/// Exact characterisation of the lowest key after `s` absorbs the whole of
/// a non-empty store `o`: the receiver with the higher top key keeps its
/// window, growing leftward if the donor reaches lower; a receiver whose
/// window sits inside the donor's adopts the donor's window; otherwise the
/// receiver grows rightward to the donor's top key.
pub open spec fn merged_min_ok(s: Store, o: Store, a2: int) -> bool {
    if s.spec_max_key() > o.spec_max_key() {
        if o.spec_min_key() < s.spec_min_key() {
            left_grown_min_ok(
                s.spec_min_key(),
                s.spec_max_key(),
                s.spec_len(),
                s.capacity(),
                o.spec_min_key(),
                a2,
            )
        } else {
            a2 == s.spec_min_key()
        }
    } else if o.spec_min_key() < s.spec_min_key() {
        a2 == o.spec_min_key()
    } else if o.spec_max_key() - s.spec_min_key() >= s.capacity() {
        a2 == o.spec_max_key() - s.capacity() + 1
    } else {
        a2 == s.spec_min_key()
    }
}

/// Collapse loses no mass: whatever growth or collapse a store has been
/// through, the cumulative count up to its highest key accounts for every
/// recorded sample.
pub proof fn lemma_total_mass(s: Store)
    requires
        s.wf(),
    ensures
        s.mass_upto(s.spec_max_key()) == s.spec_count(),
{
}

/// A fresh vector holding the same bins.
fn copy_bins(src: &Vec<u64>) -> (v: Vec<u64>)
    ensures
        v@ == src@,
{
    let mut v: Vec<u64> = Vec::new();
    let mut i: usize = 0;
    while i < src.len()
        invariant
            i <= src@.len(),
            v@.len() == i,
            forall|j: int| 0 <= j < i ==> v@[j] == src@[j],
        decreases src@.len() - i,
    {
        v.push(src[i]);
        i = i + 1;
    }
    proof {
        assert(v@ =~= src@);
    }
    v
}

/// Exact characterisation of the lowest key after `s` absorbs `key`.
pub open spec fn added_min_ok(s: Store, key: int, a2: int) -> bool {
    if key < s.spec_min_key() {
        left_grown_min_ok(
            s.spec_min_key(),
            s.spec_max_key(),
            s.spec_len(),
            s.capacity(),
            key,
            a2,
        )
    } else if key > s.spec_max_key() && key - s.spec_min_key() >= s.capacity() {
        a2 == key - s.capacity() + 1
    } else {
        a2 == s.spec_min_key()
    }
}

/// A vector of `n` zeroed bins.
fn zero_vec(n: usize) -> (v: Vec<u64>)
    ensures
        v@.len() == n,
        forall|i: int| 0 <= i < n ==> v@[i] == 0,
        seq_sum(v@) == 0,
{
    let mut v: Vec<u64> = Vec::new();
    let mut i: usize = 0;
    while i < n
        invariant
            i <= n,
            v@.len() == i,
            forall|j: int| 0 <= j < i ==> v@[j] == 0,
            seq_sum(v@) == 0,
        decreases n - i,
    {
        proof {
            lemma_seq_sum_push(v@, 0);
        }
        v.push(0);
        i = i + 1;
    }
    v
}

} // verus!
