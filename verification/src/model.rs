//! Mathematical model of the histogram builder.
//!
//! Every exec operation of the builder is specified as a pure transition on
//! this model; the well-formedness predicate `wf` is the invariant that each
//! transition preserves.

use vstd::prelude::*;

use crate::order::lex_le;
use crate::order::lex_lt;

verus! {

/// Model of one bucket: a closed range of encoded values, the cumulative
/// item count up to and including this bucket, and the number of times the
/// upper boundary value repeats at the bucket's tail.
#[verifier::ext_equal]
pub ghost struct BucketModel {
    pub count: int,
    pub upper: Seq<u8>,
    pub lower: Seq<u8>,
    pub repeats: int,
}

/// Model of the whole builder.
#[verifier::ext_equal]
pub ghost struct HistogramModel {
    pub id: int,
    pub ndv: int,
    pub buckets: Seq<BucketModel>,
    pub per_bucket_limit: int,
    pub buckets_num: int,
}

/// Total number of items ingested so far: the cumulative count of the last
/// bucket, or zero for an empty sequence.
pub open spec fn total_of(bs: Seq<BucketModel>) -> int {
    if bs.len() == 0 {
        0
    } else {
        bs.last().count
    }
}

/// Number of items held by bucket `i` alone, derived from the cumulative
/// counts.
pub open spec fn occupancy(bs: Seq<BucketModel>, i: int) -> int {
    bs[i].count - if i == 0 {
        0
    } else {
        bs[i - 1].count
    }
}

/// The model of a freshly constructed builder.
pub open spec fn new_model(id: int, buckets_num: int) -> HistogramModel {
    HistogramModel {
        id: id,
        ndv: 0,
        buckets: Seq::empty(),
        per_bucket_limit: 1,
        buckets_num: buckets_num,
    }
}

/// Fullness rule: an empty sequence counts as full (forcing creation of the
/// first bucket); otherwise the last bucket is full when its own occupancy
/// has reached `per_bucket_limit`.
pub open spec fn last_full(m: HistogramModel) -> bool {
    if m.buckets.len() == 0 {
        true
    } else {
        occupancy(m.buckets, m.buckets.len() - 1) >= m.per_bucket_limit
    }
}

/// The value being ingested equals the last bucket's upper boundary, so it
/// is absorbed as a repeat.
pub open spec fn repeat_of_last(m: HistogramModel, v: Seq<u8>) -> bool {
    m.buckets.len() > 0 && m.buckets.last().upper == v
}

/// Ingesting `v` into `m` triggers a halving merge.
pub open spec fn merge_fires(m: HistogramModel, v: Seq<u8>) -> bool {
    &&& !repeat_of_last(m, v)
    &&& m.buckets.len() >= m.buckets_num
    &&& last_full(m)
}

/// One merged pair: keeps the second bucket's cumulative count, upper bound
/// and repeats, and the first bucket's lower bound.
pub open spec fn pair_of(first: BucketModel, second: BucketModel) -> BucketModel {
    BucketModel {
        count: second.count,
        upper: second.upper,
        lower: first.lower,
        repeats: second.repeats,
    }
}

/// Merge neighbours pairwise, left to right; an unpaired final bucket is
/// kept unchanged.
pub open spec fn merge_pairs(bs: Seq<BucketModel>) -> Seq<BucketModel>
    decreases bs.len(),
{
    if bs.len() >= 2 {
        seq![pair_of(bs[0], bs[1])] + merge_pairs(bs.skip(2))
    } else {
        bs
    }
}

/// The whole-builder merge step: halve the bucket sequence, double the
/// per-bucket limit.
pub open spec fn merged(m: HistogramModel) -> HistogramModel {
    HistogramModel {
        id: m.id,
        ndv: m.ndv,
        buckets: merge_pairs(m.buckets),
        per_bucket_limit: 2 * m.per_bucket_limit,
        buckets_num: m.buckets_num,
    }
}

/// Absorb a repeat of the last bucket's boundary value: its count and
/// repeats both grow by one, nothing else changes.
pub open spec fn bump_last_repeat(m: HistogramModel) -> HistogramModel {
    let i = m.buckets.len() - 1;
    let b = m.buckets.last();
    HistogramModel {
        id: m.id,
        ndv: m.ndv,
        buckets: m.buckets.update(
            i,
            BucketModel { count: b.count + 1, upper: b.upper, lower: b.lower, repeats: b.repeats + 1 },
        ),
        per_bucket_limit: m.per_bucket_limit,
        buckets_num: m.buckets_num,
    }
}

/// Extend the last bucket with a new distinct value `v`: it becomes the new
/// upper boundary, the count grows by one and repeats resets to one.
pub open spec fn extend_last(m: HistogramModel, v: Seq<u8>) -> HistogramModel {
    let i = m.buckets.len() - 1;
    let b = m.buckets.last();
    HistogramModel {
        id: m.id,
        ndv: m.ndv,
        buckets: m.buckets.update(
            i,
            BucketModel { count: b.count + 1, upper: v, lower: b.lower, repeats: 1 },
        ),
        per_bucket_limit: m.per_bucket_limit,
        buckets_num: m.buckets_num,
    }
}

/// Append a fresh bucket holding just `v`.
pub open spec fn append_bucket(m: HistogramModel, v: Seq<u8>) -> HistogramModel {
    HistogramModel {
        id: m.id,
        ndv: m.ndv,
        buckets: m.buckets.push(
            BucketModel { count: total_of(m.buckets) + 1, upper: v, lower: v, repeats: 1 },
        ),
        per_bucket_limit: m.per_bucket_limit,
        buckets_num: m.buckets_num,
    }
}

/// The full ingestion transition: absorb a repeat, or count a new distinct
/// value, merge if the bucket budget is exhausted with a full last bucket,
/// then either extend the last bucket or open a new one.
pub open spec fn ingest(m: HistogramModel, v: Seq<u8>) -> HistogramModel {
    if repeat_of_last(m, v) {
        bump_last_repeat(m)
    } else {
        let m1 = HistogramModel {
            id: m.id,
            ndv: m.ndv + 1,
            buckets: m.buckets,
            per_bucket_limit: m.per_bucket_limit,
            buckets_num: m.buckets_num,
        };
        let m2 = if m1.buckets.len() >= m1.buckets_num && last_full(m1) {
            merged(m1)
        } else {
            m1
        };
        if !last_full(m2) {
            extend_last(m2, v)
        } else {
            append_bucket(m2, v)
        }
    }
}

/// Ingest a whole sequence of values, oldest first.
pub open spec fn ingest_all(m: HistogramModel, vs: Seq<Seq<u8>>) -> HistogramModel
    decreases vs.len(),
{
    if vs.len() == 0 {
        m
    } else {
        ingest_all(ingest(m, vs[0]), vs.drop_first())
    }
}

/// Number of merges performed while ingesting `vs` into `m`.
pub open spec fn merges_in(m: HistogramModel, vs: Seq<Seq<u8>>) -> nat
    decreases vs.len(),
{
    if vs.len() == 0 {
        0
    } else {
        (if merge_fires(m, vs[0]) {
            1nat
        } else {
            0nat
        }) + merges_in(ingest(m, vs[0]), vs.drop_first())
    }
}

/// Number of values in `vs` that differ from their immediate predecessor,
/// the predecessor of the first one being `prev`.
pub open spec fn runs_from(prev: Seq<u8>, vs: Seq<Seq<u8>>) -> int
    decreases vs.len(),
{
    if vs.len() == 0 {
        0
    } else {
        (if vs[0] == prev {
            0int
        } else {
            1int
        }) + runs_from(vs[0], vs.drop_first())
    }
}

/// Number of distinct values in `vs`, counting a value as new exactly when
/// it differs from its immediate predecessor.
pub open spec fn distinct_count(vs: Seq<Seq<u8>>) -> int
    decreases vs.len(),
{
    if vs.len() == 0 {
        0
    } else {
        1 + runs_from(vs[0], vs.drop_first())
    }
}

/// The value `v`, `k` times over.
pub open spec fn repeated(v: Seq<u8>, k: nat) -> Seq<Seq<u8>> {
    Seq::new(k, |i: int| v)
}

/// `v` may be ingested next: it does not precede the largest value seen.
pub open spec fn admissible(m: HistogramModel, v: Seq<u8>) -> bool {
    m.buckets.len() > 0 ==> lex_le(m.buckets.last().upper, v)
}

/// The values arrive in non-decreasing lexicographic order.
pub open spec fn sorted(vs: Seq<Seq<u8>>) -> bool {
    forall|i: int| 0 <= i < vs.len() - 1 ==> lex_le(#[trigger] vs[i], vs[i + 1])
}

/// Cumulative counts are strictly increasing and start at one or more.
pub open spec fn counts_wf(bs: Seq<BucketModel>) -> bool {
    &&& bs.len() > 0 ==> bs[0].count >= 1
    &&& forall|i: int| 1 <= i < bs.len() ==> bs[i - 1].count < #[trigger] bs[i].count
}

/// Each bucket's range is non-empty and the ranges are strictly separated.
pub open spec fn bounds_wf(bs: Seq<BucketModel>) -> bool {
    &&& forall|i: int| 0 <= i < bs.len() ==> lex_le(#[trigger] bs[i].lower, bs[i].upper)
    &&& forall|i: int| 1 <= i < bs.len() ==> lex_lt(bs[i - 1].upper, #[trigger] bs[i].lower)
}

/// Each bucket's repeat counter is at least one and never exceeds the
/// bucket's own occupancy.
pub open spec fn repeats_wf(bs: Seq<BucketModel>) -> bool {
    forall|i: int| 0 <= i < bs.len() ==> 1 <= (#[trigger] bs[i].repeats) && bs[i].repeats
        <= occupancy(bs, i)
}

/// `n` is a power of two.
pub open spec fn is_pow2(n: int) -> bool
    decreases n,
{
    if n <= 0 {
        false
    } else if n == 1 {
        true
    } else {
        n % 2 == 0 && is_pow2(n / 2)
    }
}

/// Two to the `n`.
pub open spec fn pow2(n: nat) -> int
    decreases n,
{
    if n == 0 {
        1
    } else {
        2 * pow2((n - 1) as nat)
    }
}

/// Every cumulative count is at least one more than its index.
pub proof fn lemma_count_at_least(bs: Seq<BucketModel>, i: int)
    requires
        counts_wf(bs),
        0 <= i < bs.len(),
    ensures
        bs[i].count >= i + 1,
    decreases i,
{
    if i > 0 {
        lemma_count_at_least(bs, i - 1);
    }
}

/// Cumulative counts are monotone along the sequence.
pub proof fn lemma_counts_mono(bs: Seq<BucketModel>, i: int, j: int)
    requires
        counts_wf(bs),
        0 <= i <= j < bs.len(),
    ensures
        bs[i].count <= bs[j].count,
    decreases j - i,
{
    if i < j {
        lemma_counts_mono(bs, i, j - 1);
    }
}

/// When the last bucket is full, the limit cannot exceed the total count.
pub proof fn lemma_limit_le_total(m: HistogramModel)
    requires
        counts_wf(m.buckets),
        m.buckets.len() >= 1,
        last_full(m),
    ensures
        m.per_bucket_limit <= total_of(m.buckets),
{
    let bs = m.buckets;
    let n = bs.len() as int;
    if n >= 2 {
        lemma_count_at_least(bs, n - 2);
    }
}

/// Element-wise description of `merge_pairs`: bucket `k` of the result is
/// the merge of buckets `2k` and `2k + 1`, and an odd trailing bucket is
/// kept unchanged.
pub proof fn lemma_merge_pairs_shape(bs: Seq<BucketModel>)
    ensures
        merge_pairs(bs).len() == (bs.len() + 1) / 2,
        forall|k: int|
            0 <= k < bs.len() / 2 ==> #[trigger] merge_pairs(bs)[k] == pair_of(
                bs[2 * k],
                bs[2 * k + 1],
            ),
        bs.len() % 2 == 1 ==> merge_pairs(bs)[bs.len() as int / 2] == bs[bs.len() - 1],
    decreases bs.len(),
{
    if bs.len() >= 2 {
        let rest = bs.skip(2);
        lemma_merge_pairs_shape(rest);
        assert forall|k: int| 0 <= k < bs.len() / 2 implies #[trigger] merge_pairs(bs)[k]
            == pair_of(bs[2 * k], bs[2 * k + 1]) by {
            if k > 0 {
                assert(merge_pairs(bs)[k] == merge_pairs(rest)[k - 1]);
                assert(merge_pairs(rest)[k - 1] == pair_of(rest[2 * (k - 1)], rest[2 * (k - 1) + 1]));
                assert(rest[2 * (k - 1)] == bs[2 * k]);
                assert(rest[2 * (k - 1) + 1] == bs[2 * k + 1]);
            }
        }
        if bs.len() % 2 == 1 {
            assert(merge_pairs(bs)[bs.len() as int / 2] == merge_pairs(rest)[rest.len() as int / 2]);
            assert(rest[rest.len() - 1] == bs[bs.len() - 1]);
        }
    }
}

/// The bucket at merged index `k` is the merge of buckets `2k` and
/// `2k + 1`, or the unpaired trailing bucket.
pub proof fn lemma_merge_elem(bs: Seq<BucketModel>, k: int)
    requires
        0 <= k < merge_pairs(bs).len(),
    ensures
        merge_pairs(bs).len() == (bs.len() + 1) / 2,
        2 * k + 1 < bs.len() ==> merge_pairs(bs)[k] == pair_of(bs[2 * k], bs[2 * k + 1]),
        2 * k + 1 >= bs.len() ==> 2 * k == bs.len() - 1 && merge_pairs(bs)[k] == bs[2 * k],
{
    lemma_merge_pairs_shape(bs);
    let n = bs.len() as int;
    if 2 * k + 1 >= n {
        assert(n % 2 == 1 && k == n / 2);
    }
}

/// Merging preserves the count invariants and the total item count.
pub proof fn lemma_merge_pairs_counts(bs: Seq<BucketModel>)
    requires
        counts_wf(bs),
    ensures
        counts_wf(merge_pairs(bs)),
        total_of(merge_pairs(bs)) == total_of(bs),
        merge_pairs(bs).len() == (bs.len() + 1) / 2,
        bs.len() > 0 ==> merge_pairs(bs).last().upper == bs.last().upper,
        bs.len() > 0 ==> merge_pairs(bs).last().repeats == bs.last().repeats,
        bs.len() > 0 ==> merge_pairs(bs)[0].lower == bs[0].lower,
{
    let ms = merge_pairs(bs);
    let n = bs.len() as int;
    lemma_merge_pairs_shape(bs);
    if n > 0 {
        lemma_merge_elem(bs, 0);
        lemma_merge_elem(bs, ms.len() - 1);
        assert(ms.last().count == bs.last().count);
    }
    assert forall|k: int| 1 <= k < ms.len() implies ms[k - 1].count < #[trigger] ms[k].count by {
        lemma_merge_elem(bs, k - 1);
        lemma_merge_elem(bs, k);
        lemma_counts_mono(bs, 2 * (k - 1) + 1, 2 * k);
    }
}

/// Merging preserves the boundary invariants.
pub proof fn lemma_merge_pairs_bounds(bs: Seq<BucketModel>)
    requires
        bounds_wf(bs),
    ensures
        bounds_wf(merge_pairs(bs)),
{
    let ms = merge_pairs(bs);
    let n = bs.len() as int;
    assert forall|k: int| 0 <= k < ms.len() implies lex_le(#[trigger] ms[k].lower, ms[k].upper) by {
        lemma_merge_elem(bs, k);
        if 2 * k + 1 < n {
            crate::order::lemma_lex_le_trans(bs[2 * k].lower, bs[2 * k].upper, bs[2 * k + 1].lower);
            crate::order::lemma_lex_le_trans(bs[2 * k].lower, bs[2 * k + 1].lower, bs[2 * k + 1].upper);
        }
    }
    assert forall|k: int| 1 <= k < ms.len() implies lex_lt(ms[k - 1].upper, #[trigger] ms[k].lower) by {
        lemma_merge_elem(bs, k - 1);
        lemma_merge_elem(bs, k);
        // `ms[k - 1]`'s upper bound is that of `bs[2k - 1]` and `ms[k]`'s
        // lower bound is that of `bs[2k]`, which are adjacent in `bs`.
        assert(ms[k - 1].upper == bs[2 * k - 1].upper);
        assert(ms[k].lower == bs[2 * k].lower);
    }
}

/// Merging preserves the repeat-counter invariant.
pub proof fn lemma_merge_pairs_repeats(bs: Seq<BucketModel>)
    requires
        counts_wf(bs),
        repeats_wf(bs),
    ensures
        repeats_wf(merge_pairs(bs)),
{
    let ms = merge_pairs(bs);
    let n = bs.len() as int;
    assert forall|k: int| 0 <= k < ms.len() implies 1 <= (#[trigger] ms[k].repeats) && ms[k].repeats
        <= occupancy(ms, k) by {
        lemma_merge_elem(bs, k);
        if k > 0 {
            lemma_merge_elem(bs, k - 1);
            assert(ms[k - 1].count == bs[2 * k - 1].count);
        }
        if 2 * k + 1 < n {
            assert(ms[k].repeats == bs[2 * k + 1].repeats);
            assert(bs[2 * k + 1].repeats <= occupancy(bs, 2 * k + 1));
            if k > 0 {
                assert(bs[2 * k - 1].count < bs[2 * k].count);
            } else {
                lemma_count_at_least(bs, 2 * k);
            }
        } else {
            // Odd trailing bucket: its predecessor in `ms` carries the count
            // of `bs[n - 2]`, its own predecessor in `bs`.
            assert(ms[k].repeats == bs[n - 1].repeats);
            assert(bs[n - 1].repeats <= occupancy(bs, n - 1));
            if k > 0 {
                assert(2 * k - 1 == n - 2);
            }
        }
    }
}

/// Absorbing a repeat keeps the whole invariant and grows the total by one.
pub proof fn lemma_bump_last_repeat(m: HistogramModel)
    requires
        wf(m),
        m.buckets.len() > 0,
    ensures
        wf(bump_last_repeat(m)),
        total_of(bump_last_repeat(m).buckets) == total_of(m.buckets) + 1,
        bump_last_repeat(m).buckets.len() == m.buckets.len(),
        bump_last_repeat(m).buckets.last().upper == m.buckets.last().upper,
{
    let bs = m.buckets;
    let i = bs.len() - 1;
    let bs2 = bump_last_repeat(m).buckets;
    assert forall|k: int| 0 <= k < bs2.len() implies 1 <= (#[trigger] bs2[k].repeats)
        && bs2[k].repeats <= occupancy(bs2, k) by {
        assert(1 <= bs[k].repeats && bs[k].repeats <= occupancy(bs, k));
    }
}

/// Extending the last bucket with a value at or above its upper boundary
/// keeps the structural invariants and grows the total by one.
pub proof fn lemma_extend_last(m: HistogramModel, v: Seq<u8>)
    requires
        counts_wf(m.buckets),
        bounds_wf(m.buckets),
        repeats_wf(m.buckets),
        m.buckets.len() > 0,
        lex_le(m.buckets.last().upper, v),
    ensures
        counts_wf(extend_last(m, v).buckets),
        bounds_wf(extend_last(m, v).buckets),
        repeats_wf(extend_last(m, v).buckets),
        total_of(extend_last(m, v).buckets) == total_of(m.buckets) + 1,
        extend_last(m, v).buckets.len() == m.buckets.len(),
        extend_last(m, v).buckets.last().upper == v,
{
    let bs = m.buckets;
    let i = bs.len() - 1;
    let bs2 = extend_last(m, v).buckets;
    crate::order::lemma_lex_le_trans(bs[i].lower, bs[i].upper, v);
    assert forall|k: int| 0 <= k < bs2.len() implies 1 <= (#[trigger] bs2[k].repeats)
        && bs2[k].repeats <= occupancy(bs2, k) by {
        assert(1 <= bs[k].repeats && bs[k].repeats <= occupancy(bs, k));
    }
}

/// Opening a fresh bucket above every existing boundary keeps the
/// structural invariants and grows the total by one.
pub proof fn lemma_append_bucket(m: HistogramModel, v: Seq<u8>)
    requires
        counts_wf(m.buckets),
        bounds_wf(m.buckets),
        repeats_wf(m.buckets),
        m.buckets.len() > 0 ==> lex_lt(m.buckets.last().upper, v),
    ensures
        counts_wf(append_bucket(m, v).buckets),
        bounds_wf(append_bucket(m, v).buckets),
        repeats_wf(append_bucket(m, v).buckets),
        total_of(append_bucket(m, v).buckets) == total_of(m.buckets) + 1,
        append_bucket(m, v).buckets.len() == m.buckets.len() + 1,
        append_bucket(m, v).buckets.last().upper == v,
{
    let bs = m.buckets;
    let bs2 = append_bucket(m, v).buckets;
    crate::order::lemma_lex_le_refl(v);
    if bs.len() > 0 {
        lemma_count_at_least(bs, bs.len() - 1);
    }
    assert forall|k: int| 0 <= k < bs2.len() implies 1 <= (#[trigger] bs2[k].repeats)
        && bs2[k].repeats <= occupancy(bs2, k) by {
        if k < bs.len() {
            assert(1 <= bs[k].repeats && bs[k].repeats <= occupancy(bs, k));
        }
    }
}

/// One ingestion preserves the invariant; it always grows the total item
/// count by one, leaves the ingested value as the last upper boundary,
/// counts the value in `ndv` exactly when it is not a direct repeat, and
/// doubles the limit exactly when the merge fires.
pub proof fn lemma_ingest_preserves(m: HistogramModel, v: Seq<u8>)
    requires
        wf(m),
        admissible(m, v),
    ensures
        wf(ingest(m, v)),
        total_of(ingest(m, v).buckets) == total_of(m.buckets) + 1,
        ingest(m, v).buckets.len() > 0,
        ingest(m, v).buckets.last().upper == v,
        ingest(m, v).ndv == m.ndv + (if repeat_of_last(m, v) {
            0int
        } else {
            1int
        }),
        ingest(m, v).per_bucket_limit == (if merge_fires(m, v) {
            2 * m.per_bucket_limit
        } else {
            m.per_bucket_limit
        }),
        ingest(m, v).id == m.id,
        ingest(m, v).buckets_num == m.buckets_num,
{
    if repeat_of_last(m, v) {
        lemma_bump_last_repeat(m);
    } else {
        let m1 = HistogramModel { ndv: m.ndv + 1, ..m };
        let fires = m1.buckets.len() >= m1.buckets_num && last_full(m1);
        let m2 = if fires {
            merged(m1)
        } else {
            m1
        };
        if fires {
            lemma_limit_le_total(m1);
            lemma_merge_pairs_counts(m1.buckets);
            lemma_merge_pairs_bounds(m1.buckets);
            lemma_merge_pairs_repeats(m1.buckets);
            assert((2 * m.per_bucket_limit) % 2 == 0 && (2 * m.per_bucket_limit) / 2
                == m.per_bucket_limit);
            assert(is_pow2(2 * m.per_bucket_limit));
        }
        assert(counts_wf(m2.buckets) && bounds_wf(m2.buckets) && repeats_wf(m2.buckets));
        assert(total_of(m2.buckets) == total_of(m.buckets));
        assert(m2.buckets.len() > 0 ==> m2.buckets.last().upper == m.buckets.last().upper);
        let r = ingest(m, v);
        if !last_full(m2) {
            lemma_extend_last(m2, v);
            assert(r == extend_last(m2, v));
        } else {
            lemma_append_bucket(m2, v);
            assert(r == append_bucket(m2, v));
            // Bound on the number of buckets after opening a new one.
            if fires {
                if m.buckets_num >= 2 {
                    assert(m.buckets.len() == m.buckets_num);
                    assert(m2.buckets.len() == (m.buckets_num + 1) / 2);
                    assert((m.buckets_num + 1) / 2 + 1 <= m.buckets_num);
                } else {
                    assert(m.buckets.len() <= 2);
                    assert(m2.buckets.len() == 1);
                }
            } else {
                assert(m.buckets.len() < m.buckets_num || !last_full(m1));
            }
        }
        assert(wf(r));
    }
}

/// The builder's invariant, preserved by every ingestion.
pub open spec fn wf(m: HistogramModel) -> bool {
    &&& m.buckets_num >= 1
    &&& is_pow2(m.per_bucket_limit)
    &&& m.per_bucket_limit <= 2 * total_of(m.buckets) + 1
    &&& 0 <= m.ndv <= total_of(m.buckets)
    &&& m.buckets_num >= 2 ==> m.buckets.len() <= m.buckets_num
    &&& m.buckets_num == 1 ==> m.buckets.len() <= 2
    &&& counts_wf(m.buckets)
    &&& bounds_wf(m.buckets)
    &&& repeats_wf(m.buckets)
}

} // verus!
