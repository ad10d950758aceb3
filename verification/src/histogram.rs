//! The executable histogram builder.

use vstd::prelude::*;

use crate::model::BucketModel;
use crate::model::HistogramModel;
use crate::model::admissible;
use crate::model::append_bucket;
use crate::model::bump_last_repeat;
use crate::model::counts_wf;
use crate::model::extend_last;
use crate::model::ingest;
use crate::model::last_full;
use crate::model::lemma_count_at_least;
use crate::model::lemma_ingest_preserves;
use crate::model::lemma_limit_le_total;
use crate::model::lemma_merge_pairs_counts;
use crate::model::merged;
use crate::model::merge_pairs;
use crate::model::new_model;
use crate::model::pair_of;
use crate::model::repeat_of_last;
use crate::model::total_of;
use crate::model::wf;

verus! {

/// Bucket is an element of the histogram.
///
/// A bucket's `count` is the number of items stored in all previous buckets
/// and the current bucket, so counts grow along the sequence.
///
/// `upper_bound` is the greatest encoded value stored in the bucket and
/// `lower_bound` the smallest; `repeats` counts how many times the value
/// `upper_bound` occurs at the bucket's tail, which helps find popular
/// values.
pub struct Bucket {
    pub count: i64,
    pub upper_bound: Vec<u8>,
    pub lower_bound: Vec<u8>,
    pub repeats: i64,
}

impl View for Bucket {
    type V = BucketModel;

    open spec fn view(&self) -> BucketModel {
        BucketModel {
            count: self.count as int,
            upper: self.upper_bound@,
            lower: self.lower_bound@,
            repeats: self.repeats as int,
        }
    }
}

impl Bucket {
    /// Build a bucket from its four fields.
    pub fn new(count: i64, upper_bound: Vec<u8>, lower_bound: Vec<u8>, repeats: i64) -> (b: Bucket)
        ensures
            b@ == (BucketModel {
                count: count as int,
                upper: upper_bound@,
                lower: lower_bound@,
                repeats: repeats as int,
            }),
    {
        Bucket { count, upper_bound, lower_bound, repeats }
    }

    /// Absorb one more occurrence of the bucket's boundary value: `count`
    /// and `repeats` both grow by one.
    pub fn insert_repeated_item(&mut self)
        requires
            old(self).count < i64::MAX,
            old(self).repeats < i64::MAX,
        ensures
            final(self)@ == (BucketModel {
                count: old(self)@.count + 1,
                upper: old(self)@.upper,
                lower: old(self)@.lower,
                repeats: old(self)@.repeats + 1,
            }),
    {
        self.count = self.count + 1;
        self.repeats = self.repeats + 1;
    }

    /// Append a genuinely new value: it becomes the new upper boundary,
    /// `count` grows by one and `repeats` resets to one.
    pub fn insert_item(&mut self, data: Vec<u8>)
        requires
            old(self).count < i64::MAX,
        ensures
            final(self)@ == (BucketModel {
                count: old(self)@.count + 1,
                upper: data@,
                lower: old(self)@.lower,
                repeats: 1,
            }),
    {
        self.upper_bound = data;
        self.count = self.count + 1;
        self.repeats = 1;
    }
}

/// Histogram represents equi-depth statistics for a column or index.
pub struct Histogram {
    /// The described column's id, carried through uninterpreted.
    pub id: i64,
    /// Number of distinct values observed.
    pub ndv: i64,
    /// The ordered bucket sequence.
    pub buckets: Vec<Bucket>,
    /// Target maximum number of items per bucket. When a bucket's own count
    /// has reached this limit, only a value equal to its boundary value may
    /// still be inserted into it.
    pub per_bucket_limit: i64,
    /// Target maximum number of buckets, fixed at construction.
    pub buckets_num: usize,
}

impl View for Histogram {
    type V = HistogramModel;

    open spec fn view(&self) -> HistogramModel {
        HistogramModel {
            id: self.id as int,
            ndv: self.ndv as int,
            buckets: self.buckets@.map_values(|b: Bucket| b@),
            per_bucket_limit: self.per_bucket_limit as int,
            buckets_num: self.buckets_num as int,
        }
    }
}

impl Histogram {
    /// Create an empty histogram for column `id` with a target of
    /// `buckets_num` buckets.
    pub fn new(id: i64, buckets_num: usize) -> (h: Histogram)
        requires
            buckets_num >= 1,
        ensures
            h@ == new_model(id as int, buckets_num as int),
            wf(h@),
    {
        let h = Histogram {
            id,
            ndv: 0,
            buckets: Vec::new(),
            per_bucket_limit: 1,
            buckets_num,
        };
        proof {
            assert(h@.buckets =~= Seq::empty());
            assert(h@ =~= new_model(id as int, buckets_num as int));
        }
        h
    }

    /// Check whether the last bucket is full: an empty sequence counts as
    /// full, otherwise the last bucket's own occupancy is compared with
    /// `per_bucket_limit`.
    pub fn is_last_bucket_full(&self) -> (r: bool)
        requires
            counts_wf(self@.buckets),
        ensures
            r == last_full(self@),
    {
        let len = self.buckets.len();
        if len == 0 {
            return true;
        }
        let count: i64 = if len == 1 {
            self.buckets[0].count
        } else {
            proof {
                let bs = self@.buckets;
                lemma_count_at_least(bs, len - 2);
                assert(bs[len - 2].count < bs[len - 1].count);
            }
            self.buckets[len - 1].count - self.buckets[len - 2].count
        };
        count >= self.per_bucket_limit
    }

    /// Ingest one encoded value, which must not precede any value ingested
    /// before. A direct repeat of the last boundary value is absorbed into
    /// the last bucket; otherwise the value counts towards `ndv`, a halving
    /// merge runs when the bucket budget is exhausted with a full last
    /// bucket, and the value then extends the last bucket or opens a new
    /// one.
    #[verifier::rlimit(100)]
    pub fn iterate(&mut self, data: Vec<u8>)
        requires
            wf(old(self)@),
            admissible(old(self)@, data@),
            total_of(old(self)@.buckets) < 0x4000_0000_0000_0000,
        ensures
            final(self)@ == ingest(old(self)@, data@),
            wf(final(self)@),
    {
        proof {
            lemma_ingest_preserves(old(self)@, data@);
        }
        let ghost m0 = self@;
        let n = self.buckets.len();
        if n > 0 {
            if self.buckets[n - 1].upper_bound == data {
                proof {
                    let bs = m0.buckets;
                    assert(bs[n - 1].upper =~= data@);
                    assert(repeat_of_last(m0, data@));
                    // The last bucket's count is the running total and its
                    // repeat counter is bounded by its occupancy, so both
                    // increments fit.
                    assert(bs[n - 1].repeats <= crate::model::occupancy(bs, n - 1));
                    if n >= 2 {
                        lemma_count_at_least(bs, n - 2);
                    }
                }
                let b = &mut self.buckets[n - 1];
                b.insert_repeated_item();
                proof {
                    assert(self@.buckets =~= bump_last_repeat(m0).buckets);
                    assert(self@ =~= bump_last_repeat(m0));
                }
                return;
            }
            proof {
                assert(m0.buckets[n - 1].upper != data@);
                assert(!repeat_of_last(m0, data@));
            }
        }
        self.ndv = self.ndv + 1;
        let ghost m1 = self@;
        proof {
            assert(m1 == (HistogramModel {
                id: m0.id,
                ndv: m0.ndv + 1,
                buckets: m0.buckets,
                per_bucket_limit: m0.per_bucket_limit,
                buckets_num: m0.buckets_num,
            }));
        }
        if self.buckets.len() >= self.buckets_num && self.is_last_bucket_full() {
            proof {
                lemma_limit_le_total(m1);
            }
            self.merge_buckets();
            proof {
                lemma_merge_pairs_counts(m1.buckets);
            }
        }
        let ghost m2 = self@;
        proof {
            assert(counts_wf(m2.buckets));
            assert(total_of(m2.buckets) == total_of(m0.buckets));
        }
        if !self.is_last_bucket_full() {
            let len = self.buckets.len();
            proof {
                lemma_count_at_least(m2.buckets, len - 1);
            }
            let b = &mut self.buckets[len - 1];
            b.insert_item(data);
            proof {
                assert(self@.buckets =~= extend_last(m2, data@).buckets);
                assert(self@ =~= extend_last(m2, data@));
                assert(self@ == ingest(m0, data@));
            }
            return;
        }
        let mut count: i64 = 1;
        let len = self.buckets.len();
        if len > 0 {
            count = count + self.buckets[len - 1].count;
        }
        let lower = clone_bytes(&data);
        self.buckets.push(Bucket::new(count, data, lower, 1));
        proof {
            assert(self@.buckets =~= append_bucket(m2, data@).buckets);
            assert(self@ =~= append_bucket(m2, data@));
            assert(self@ == ingest(m0, data@));
        }
    }

    /// Merge every two neighbouring buckets into one and double the
    /// per-bucket limit.
    pub fn merge_buckets(&mut self)
        requires
            old(self).per_bucket_limit >= 1,
            2 * old(self).per_bucket_limit <= i64::MAX,
        ensures
            final(self)@ == merged(old(self)@),
    {
        let ghost bs = self@.buckets;
        let n = self.buckets.len();
        let mut merged_v: Vec<Bucket> = Vec::new();
        let mut i: usize = 0;
        proof {
            assert(bs.skip(0) =~= bs);
            assert(merged_v@.map_values(|b: Bucket| b@) + merge_pairs(bs) =~= merge_pairs(bs));
        }
        while i < n
            invariant
                i <= n,
                n == self.buckets.len(),
                self@ == old(self)@,
                bs == self@.buckets,
                self.per_bucket_limit >= 1,
                2 * self.per_bucket_limit <= i64::MAX,
                merge_pairs(bs) == merged_v@.map_values(|b: Bucket| b@) + merge_pairs(
                    bs.skip(i as int),
                ),
            decreases n - i,
        {
            let ghost before = merged_v@.map_values(|b: Bucket| b@);
            if i + 1 < n {
                let upper = clone_bytes(&self.buckets[i + 1].upper_bound);
                let lower = clone_bytes(&self.buckets[i].lower_bound);
                let b = Bucket::new(
                    self.buckets[i + 1].count,
                    upper,
                    lower,
                    self.buckets[i + 1].repeats,
                );
                proof {
                    assert(b@ == pair_of(bs[i as int], bs[i as int + 1]));
                    assert(bs.skip(i as int).skip(2) =~= bs.skip(i as int + 2));
                    assert(bs.skip(i as int)[0] == bs[i as int]);
                    assert(bs.skip(i as int)[1] == bs[i as int + 1]);
                    assert(merge_pairs(bs.skip(i as int)) == seq![
                        pair_of(bs[i as int], bs[i as int + 1]),
                    ] + merge_pairs(bs.skip(i as int + 2)));
                }
                merged_v.push(b);
                proof {
                    assert(merged_v@.map_values(|b: Bucket| b@) =~= before + seq![
                        pair_of(bs[i as int], bs[i as int + 1]),
                    ]);
                    assert(before + seq![pair_of(bs[i as int], bs[i as int + 1])] + merge_pairs(
                        bs.skip(i as int + 2),
                    ) =~= merge_pairs(bs));
                }
                i = i + 2;
            } else {
                let upper = clone_bytes(&self.buckets[i].upper_bound);
                let lower = clone_bytes(&self.buckets[i].lower_bound);
                let b = Bucket::new(self.buckets[i].count, upper, lower, self.buckets[i].repeats);
                proof {
                    assert(b@ == bs[i as int]);
                    assert(bs.skip(i as int) =~= seq![bs[i as int]]);
                    assert(merge_pairs(bs.skip(i as int)) == seq![bs[i as int]]);
                }
                merged_v.push(b);
                proof {
                    assert(merged_v@.map_values(|b: Bucket| b@) =~= before + seq![bs[i as int]]);
                    assert(bs.skip(i as int + 1) =~= Seq::empty());
                    assert(before + seq![bs[i as int]] + merge_pairs(bs.skip(i as int + 1))
                        =~= merge_pairs(bs));
                }
                i = i + 1;
            }
        }
        proof {
            assert(bs.skip(n as int) =~= Seq::empty());
            assert(merged_v@.map_values(|b: Bucket| b@) + merge_pairs(bs.skip(n as int))
                =~= merged_v@.map_values(|b: Bucket| b@));
        }
        self.buckets = merged_v;
        self.per_bucket_limit = 2 * self.per_bucket_limit;
        proof {
            assert(final(self)@ =~= merged(old(self)@));
        }
    }
}

/// Copy a byte string.
fn clone_bytes(v: &Vec<u8>) -> (r: Vec<u8>)
    ensures
        r@ == v@,
{
    let r = v.clone();
    proof {
        assert forall|j: int| 0 <= j < v@.len() implies r@[j] == v@[j] by {
            assert(vstd::pervasive::cloned::<u8>(v@[j], r@[j]));
        }
        assert(r@ =~= v@);
    }
    r
}

} // verus!
