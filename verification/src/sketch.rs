//! The sketch core: a bucket store together with exact running extremes.
//!
//! Sample values reach the core as a pair of plain integers: the bucket key
//! the value maps to under the sketch's logarithmic mapping, and an
//! order-preserving encoding of the value itself. The core records the key
//! in its [`Store`], keeps the least and greatest encoding seen, and carries
//! the bookkeeping that merging two sketches requires — in particular that
//! an empty sketch adopts the other side's extremes outright instead of
//! comparing them.

use vstd::prelude::*;

use crate::errors::DDSketchError;
use crate::store::{added_min_ok, fold_at, max_i, merged_min_ok, Store};
use crate::store::{INITIAL_NUM_BINS, MAX_COUNT};

verus! {

/// The smaller of two integers.
pub open spec fn min_i(x: int, y: int) -> int {
    if x <= y {
        x
    } else {
        y
    }
}

/// A bucket store plus the exact extremes of everything inserted, kept as
/// order-preserving encodings.
#[derive(Clone)]
pub struct SketchCore {
    store: Store,
    min_enc: u64,
    max_enc: u64,
}

impl SketchCore {
    /// The bucket store this core wraps.
    pub closed spec fn store_view(self) -> Store {
        self.store
    }

    /// Total number of samples recorded.
    pub open spec fn spec_count(self) -> int {
        self.store_view().spec_count()
    }

    /// Encoding of the least sample seen; meaningful only when non-empty.
    pub closed spec fn spec_min_enc(self) -> int {
        self.min_enc as int
    }

    /// Encoding of the greatest sample seen; meaningful only when non-empty.
    pub closed spec fn spec_max_enc(self) -> int {
        self.max_enc as int
    }

    /// Structural invariant of a sketch core.
    pub open spec fn wf(self) -> bool {
        &&& self.store_view().wf()
        &&& self.spec_count() > 0 ==> self.spec_min_enc() <= self.spec_max_enc()
    }

    /// Create an empty core whose store may grow to `max_num_bins` bins.
    pub fn new(max_num_bins: i32) -> (s: SketchCore)
        requires
            max_num_bins >= INITIAL_NUM_BINS,
        ensures
            s.wf(),
            s.spec_count() == 0,
            s.store_view().capacity() == max_num_bins,
            forall|k: int| s.store_view().bucket(k) == 0,
    {
        SketchCore { store: Store::new(max_num_bins), min_enc: 0, max_enc: 0 }
    }

    /// Record one sample, given as its bucket key and the order-preserving
    /// encoding of its value. The store absorbs the key exactly as
    /// [`Store::add`] describes; the extremes are updated exactly.
    pub fn add(&mut self, key: i32, enc: u64)
        requires
            old(self).wf(),
            old(self).spec_count() < MAX_COUNT,
        ensures
            final(self).wf(),
            final(self).store_view().capacity() == old(self).store_view().capacity(),
            final(self).spec_count() == old(self).spec_count() + 1,
            final(self).spec_min_enc() == (if old(self).spec_count() == 0 {
                enc as int
            } else {
                min_i(old(self).spec_min_enc(), enc as int)
            }),
            final(self).spec_max_enc() == (if old(self).spec_count() == 0 {
                enc as int
            } else {
                max_i(old(self).spec_max_enc(), enc as int)
            }),
            old(self).spec_count() == 0 ==> {
                &&& final(self).store_view().spec_max_key() == key
                &&& forall|k: int|
                    final(self).store_view().bucket(k) == (if k == key {
                        1int
                    } else {
                        0int
                    })
            },
            old(self).spec_count() > 0 ==> {
                &&& final(self).store_view().spec_max_key() == max_i(
                    old(self).store_view().spec_max_key(),
                    key as int,
                )
                &&& added_min_ok(
                    old(self).store_view(),
                    key as int,
                    final(self).store_view().spec_min_key(),
                )
                &&& forall|k: int|
                    final(self).store_view().bucket(k) == fold_at(
                        old(self).store_view(),
                        final(self).store_view().spec_min_key(),
                        k,
                    ) + (if k == max_i(key as int, final(self).store_view().spec_min_key()) {
                        1int
                    } else {
                        0int
                    })
            },
    {
        let was_empty = self.store.count() == 0;
        self.store.add(key);
        if was_empty {
            self.min_enc = enc;
            self.max_enc = enc;
        } else {
            if enc < self.min_enc {
                self.min_enc = enc;
            }
            if enc > self.max_enc {
                self.max_enc = enc;
            }
        }
    }

    /// Merge another core into this one. The two must have been built with
    /// the same store capacity; otherwise nothing changes and the merge
    /// error is returned. On success the stores merge as [`Store::merge`]
    /// describes, and the extremes combine exactly — with an empty side's
    /// placeholders never leaking into the result.
    pub fn merge(&mut self, o: &SketchCore) -> (r: Result<(), DDSketchError>)
        requires
            old(self).wf(),
            o.wf(),
            old(self).spec_count() + o.spec_count() <= MAX_COUNT,
        ensures
            final(self).wf(),
            final(self).store_view().capacity() == old(self).store_view().capacity(),
            old(self).store_view().capacity() != o.store_view().capacity() ==> {
                &&& r == Result::<(), DDSketchError>::Err(DDSketchError::Merge)
                &&& *final(self) == *old(self)
            },
            old(self).store_view().capacity() == o.store_view().capacity() ==> {
                &&& r == Result::<(), DDSketchError>::Ok(())
                &&& final(self).spec_count() == old(self).spec_count() + o.spec_count()
                &&& final(self).spec_min_enc() == (if o.spec_count() == 0 {
                    old(self).spec_min_enc()
                } else if old(self).spec_count() == 0 {
                    o.spec_min_enc()
                } else {
                    min_i(old(self).spec_min_enc(), o.spec_min_enc())
                })
                &&& final(self).spec_max_enc() == (if o.spec_count() == 0 {
                    old(self).spec_max_enc()
                } else if old(self).spec_count() == 0 {
                    o.spec_max_enc()
                } else {
                    max_i(old(self).spec_max_enc(), o.spec_max_enc())
                })
                &&& o.spec_count() == 0 ==> forall|k: int|
                    final(self).store_view().bucket(k) == old(self).store_view().bucket(k)
                &&& old(self).spec_count() == 0 && o.spec_count() > 0 ==> forall|k: int|
                    final(self).store_view().bucket(k) == o.store_view().bucket(k)
                &&& old(self).spec_count() > 0 && o.spec_count() > 0 ==> {
                    &&& final(self).store_view().spec_max_key() == max_i(
                        old(self).store_view().spec_max_key(),
                        o.store_view().spec_max_key(),
                    )
                    &&& merged_min_ok(
                        old(self).store_view(),
                        o.store_view(),
                        final(self).store_view().spec_min_key(),
                    )
                    &&& forall|k: int|
                        final(self).store_view().bucket(k) == fold_at(
                            old(self).store_view(),
                            final(self).store_view().spec_min_key(),
                            k,
                        ) + fold_at(
                            o.store_view(),
                            final(self).store_view().spec_min_key(),
                            k,
                        )
                }
            },
    {
        if self.store.bin_capacity() != o.store.bin_capacity() {
            return Err(DDSketchError::Merge);
        }
        let was_empty = self.store.count() == 0;
        let o_empty = o.store.count() == 0;
        self.store.merge(&o.store);
        if was_empty {
            if !o_empty {
                self.min_enc = o.min_enc;
                self.max_enc = o.max_enc;
            }
        } else if !o_empty {
            if o.min_enc < self.min_enc {
                self.min_enc = o.min_enc;
            }
            if o.max_enc > self.max_enc {
                self.max_enc = o.max_enc;
            }
        }
        Ok(())
    }

    /// The bucket key holding the sample of 1-based rank `rank`, as
    /// [`Store::key_at_rank`] describes it.
    pub fn key_at_rank(&self, rank: u64) -> (r: i64)
        requires
            self.wf(),
        ensures
            rank == 0 ==> r == self.store_view().spec_min_key(),
            1 <= rank <= self.spec_count() ==> {
                &&& self.store_view().spec_min_key() <= r <= self.store_view().spec_max_key()
                &&& self.store_view().mass_upto(r as int) >= rank
                &&& forall|k: int|
                    self.store_view().spec_min_key() <= k < r
                        ==> self.store_view().mass_upto(k) < rank
            },
            rank > self.spec_count() ==> r == self.store_view().spec_max_key(),
    {
        self.store.key_at_rank(rank)
    }

    /// Encoding of the least sample seen, absent when the sketch is empty.
    pub fn min_enc(&self) -> (r: Option<u64>)
        ensures
            self.spec_count() == 0 ==> r is None,
            self.spec_count() > 0 ==> r == Some(self.spec_min_enc() as u64),
    {
        if self.store.count() == 0 {
            None
        } else {
            Some(self.min_enc)
        }
    }

    /// Encoding of the greatest sample seen, absent when the sketch is empty.
    pub fn max_enc(&self) -> (r: Option<u64>)
        ensures
            self.spec_count() == 0 ==> r is None,
            self.spec_count() > 0 ==> r == Some(self.spec_max_enc() as u64),
    {
        if self.store.count() == 0 {
            None
        } else {
            Some(self.max_enc)
        }
    }

    /// Total number of samples recorded.
    pub fn count(&self) -> (r: u64)
        ensures
            r == self.spec_count(),
    {
        self.store.count()
    }

    /// Number of bins the store currently allocates.
    pub fn length(&self) -> (r: usize)
        ensures
            r == self.store_view().spec_len(),
    {
        self.store.length()
    }
}

/// Merging two non-empty cores combines their statistics the same way in
/// either order: the counts add, and the extremes are the least and
/// greatest of both sides' extremes — exactly what [`SketchCore::merge`]
/// ensures for whichever side receives the other.
pub proof fn lemma_merge_stats_commute(a: SketchCore, b: SketchCore)
    requires
        a.wf(),
        b.wf(),
        a.spec_count() > 0,
        b.spec_count() > 0,
    ensures
        a.spec_count() + b.spec_count() == b.spec_count() + a.spec_count(),
        min_i(a.spec_min_enc(), b.spec_min_enc()) == min_i(b.spec_min_enc(), a.spec_min_enc()),
        max_i(a.spec_max_enc(), b.spec_max_enc()) == max_i(b.spec_max_enc(), a.spec_max_enc()),
{
}

/// Split a raw bucket key into the sign of the value range it stands for
/// and the key relative to the configuration's offset: keys above zero
/// stand for positive values at `key - offset`, keys below zero for
/// negative values at `-(key + offset)`, and key zero for values too small
/// to distinguish from zero.
pub fn rank_bucket(key: i64, offset: i32) -> (r: (i32, i64))
    requires
        -0x4000_0000_0000_0000 < key < 0x4000_0000_0000_0000,
    ensures
        key < 0 ==> r.0 == -1i32 && r.1 as int == -(key + offset),
        key == 0 ==> r.0 == 0i32 && r.1 == 0i64,
        key > 0 ==> r.0 == 1i32 && r.1 as int == key - offset,
{
    if key < 0 {
        (-1, -(key + offset as i64))
    } else if key > 0 {
        (1, key - offset as i64)
    } else {
        (0, 0)
    }
}

/// Clamp an encoded value into the inclusive range `[lo, hi]`, so that a
/// bucket-midpoint estimate never leaves the observed extremes.
pub fn clamp_enc(v: u64, lo: u64, hi: u64) -> (r: u64)
    requires
        lo <= hi,
    ensures
        r == (if v < lo {
            lo
        } else if v > hi {
            hi
        } else {
            v
        }),
        lo <= r <= hi,
{
    if v < lo {
        lo
    } else if v > hi {
        hi
    } else {
        v
    }
}

} // verus!
