//! Proved laws of the histogram builder.
//!
//! Each law is stated over the model transitions of [`crate::model`], which
//! the exec operations of [`crate::histogram`] are proved to implement
//! exactly.

use vstd::prelude::*;

use crate::model::HistogramModel;
use crate::model::BucketModel;
use crate::model::admissible;
use crate::model::distinct_count;
use crate::model::ingest;
use crate::model::ingest_all;
use crate::model::is_pow2;
use crate::model::lemma_ingest_preserves;
use crate::model::merge_fires;
use crate::model::merges_in;
use crate::model::new_model;
use crate::model::pow2;
use crate::model::repeat_of_last;
use crate::model::repeated;
use crate::model::runs_from;
use crate::model::sorted;
use crate::model::total_of;
use crate::model::wf;
use crate::order::lemma_lex_le_refl;

verus! {

/// A fresh builder is well formed.
pub proof fn lemma_new_wf(id: int, buckets_num: int)
    requires
        buckets_num >= 1,
    ensures
        wf(new_model(id, buckets_num)),
        total_of(new_model(id, buckets_num).buckets) == 0,
{
    assert(is_pow2(1));
}

/// Dropping the first value keeps a value sequence sorted.
proof fn lemma_sorted_drop_first(vs: Seq<Seq<u8>>)
    requires
        sorted(vs),
        vs.len() > 0,
    ensures
        sorted(vs.drop_first()),
{
    let rest = vs.drop_first();
    assert forall|i: int| 0 <= i < rest.len() - 1 implies crate::order::lex_le(
        rest[i],
        #[trigger] rest[i + 1],
    ) by {
        assert(crate::order::lex_le(vs[i + 1], vs[i + 2]));
    }
}

/// Ingesting a sorted value sequence preserves the invariant; the total
/// item count grows by the number of values, and the last value ingested
/// remains the last upper boundary.
pub proof fn lemma_ingest_all_preserves(m: HistogramModel, vs: Seq<Seq<u8>>)
    requires
        wf(m),
        sorted(vs),
        vs.len() > 0 ==> admissible(m, vs[0]),
    ensures
        wf(ingest_all(m, vs)),
        total_of(ingest_all(m, vs).buckets) == total_of(m.buckets) + vs.len(),
        ingest_all(m, vs).id == m.id,
        ingest_all(m, vs).buckets_num == m.buckets_num,
        vs.len() > 0 ==> ingest_all(m, vs).buckets.len() > 0 && ingest_all(
            m,
            vs,
        ).buckets.last().upper == vs.last(),
    decreases vs.len(),
{
    if vs.len() > 0 {
        lemma_ingest_preserves(m, vs[0]);
        let m1 = ingest(m, vs[0]);
        let rest = vs.drop_first();
        lemma_sorted_drop_first(vs);
        if rest.len() > 0 {
            assert(crate::order::lex_le(vs[0], vs[1]));
            assert(rest[0] == vs[1]);
        }
        lemma_ingest_all_preserves(m1, rest);
        if rest.len() > 0 {
            assert(rest.last() == vs.last());
        }
    }
}

/// Monotonic counts: after ingesting any sorted value sequence into a
/// fresh builder, the cumulative counts of consecutive buckets are
/// non-decreasing, and the last bucket's count equals the number of values
/// ingested so far.
pub proof fn lemma_monotonic_counts(id: int, buckets_num: int, vs: Seq<Seq<u8>>)
    requires
        buckets_num >= 1,
        sorted(vs),
    ensures
        ({
            let m = ingest_all(new_model(id, buckets_num), vs);
            &&& forall|i: int|
                0 <= i < m.buckets.len() - 1 ==> (#[trigger] m.buckets[i].count) <= m.buckets[i
                    + 1].count
            &&& m.buckets.len() > 0 ==> m.buckets.last().count == vs.len()
            &&& vs.len() > 0 ==> m.buckets.len() > 0
        }),
{
    lemma_new_wf(id, buckets_num);
    lemma_ingest_all_preserves(new_model(id, buckets_num), vs);
    let m = ingest_all(new_model(id, buckets_num), vs);
    assert forall|i: int| 0 <= i < m.buckets.len() - 1 implies (#[trigger] m.buckets[i].count)
        <= m.buckets[i + 1].count by {
        assert(m.buckets[i].count < m.buckets[i + 1].count);
    }
}

/// Bucket cap on growth: with a bucket budget of at least two, the number
/// of buckets never exceeds `buckets_num` after any ingestion.
pub proof fn lemma_bucket_cap(id: int, buckets_num: int, vs: Seq<Seq<u8>>)
    requires
        buckets_num >= 2,
        sorted(vs),
    ensures
        ingest_all(new_model(id, buckets_num), vs).buckets.len() <= buckets_num,
{
    lemma_new_wf(id, buckets_num);
    lemma_ingest_all_preserves(new_model(id, buckets_num), vs);
}

/// The limit after a sorted ingestion sequence is the starting limit
/// scaled by two to the number of merges performed.
proof fn lemma_doubling_trace(m: HistogramModel, vs: Seq<Seq<u8>>)
    requires
        wf(m),
        sorted(vs),
        vs.len() > 0 ==> admissible(m, vs[0]),
    ensures
        ingest_all(m, vs).per_bucket_limit == m.per_bucket_limit * pow2(merges_in(m, vs)),
    decreases vs.len(),
{
    if vs.len() == 0 {
        assert(pow2(0) == 1);
    } else {
        lemma_ingest_preserves(m, vs[0]);
        let m1 = ingest(m, vs[0]);
        let rest = vs.drop_first();
        lemma_sorted_drop_first(vs);
        if rest.len() > 0 {
            assert(crate::order::lex_le(vs[0], vs[1]));
            assert(rest[0] == vs[1]);
        }
        lemma_doubling_trace(m1, rest);
        let k = merges_in(m1, rest);
        if merge_fires(m, vs[0]) {
            assert(merges_in(m, vs) == k + 1);
            assert(pow2(k + 1) == 2 * pow2(k));
            assert((2 * m.per_bucket_limit) * pow2(k) == m.per_bucket_limit * (2 * pow2(k)))
                by (nonlinear_arith);
        } else {
            assert(merges_in(m, vs) == k);
        }
    }
}

/// Doubling law: `per_bucket_limit` is always a power of two; after any
/// sorted ingestion sequence into a fresh builder it equals two to the
/// number of merges performed so far.
pub proof fn lemma_doubling(id: int, buckets_num: int, vs: Seq<Seq<u8>>)
    requires
        buckets_num >= 1,
        sorted(vs),
    ensures
        ({
            let m0 = new_model(id, buckets_num);
            let m = ingest_all(m0, vs);
            &&& m.per_bucket_limit == pow2(merges_in(m0, vs))
            &&& is_pow2(m.per_bucket_limit)
        }),
{
    lemma_new_wf(id, buckets_num);
    lemma_ingest_all_preserves(new_model(id, buckets_num), vs);
    lemma_doubling_trace(new_model(id, buckets_num), vs);
}

/// `ndv` counts exactly the values that differ from their immediate
/// predecessor, the predecessor of the first one being the last upper
/// boundary already in the builder.
proof fn lemma_ndv_trace(m: HistogramModel, vs: Seq<Seq<u8>>)
    requires
        wf(m),
        sorted(vs),
        vs.len() > 0 ==> admissible(m, vs[0]),
    ensures
        m.buckets.len() > 0 ==> ingest_all(m, vs).ndv == m.ndv + runs_from(
            m.buckets.last().upper,
            vs,
        ),
        m.buckets.len() == 0 ==> ingest_all(m, vs).ndv == m.ndv + distinct_count(vs),
    decreases vs.len(),
{
    if vs.len() > 0 {
        lemma_ingest_preserves(m, vs[0]);
        let m1 = ingest(m, vs[0]);
        let rest = vs.drop_first();
        lemma_sorted_drop_first(vs);
        if rest.len() > 0 {
            assert(crate::order::lex_le(vs[0], vs[1]));
            assert(rest[0] == vs[1]);
        }
        lemma_ndv_trace(m1, rest);
        assert(m1.buckets.last().upper == vs[0]);
        if m.buckets.len() > 0 {
            assert(repeat_of_last(m, vs[0]) <==> vs[0] == m.buckets.last().upper);
        }
    }
}

/// NDV accuracy: after ingesting any sorted value sequence into a fresh
/// builder, `ndv` equals the number of distinct values ingested, a value
/// counting as new exactly when it differs from its immediate predecessor.
pub proof fn lemma_ndv_accuracy(id: int, buckets_num: int, vs: Seq<Seq<u8>>)
    requires
        buckets_num >= 1,
        sorted(vs),
    ensures
        ingest_all(new_model(id, buckets_num), vs).ndv == distinct_count(vs),
{
    lemma_new_wf(id, buckets_num);
    lemma_ndv_trace(new_model(id, buckets_num), vs);
}

/// Repeat absorption: ingesting the last boundary value `k` more times
/// grows only the last bucket's count and repeat counter, each by `k`; it
/// never touches `ndv`, the limit, the other buckets, or the bucket count,
/// so it can neither create a bucket nor trigger a merge.
#[verifier::rlimit(100)]
pub proof fn lemma_repeat_absorption(m: HistogramModel, v: Seq<u8>, k: nat)
    requires
        wf(m),
        m.buckets.len() > 0,
        m.buckets.last().upper == v,
    ensures
        ({
            let r = ingest_all(m, repeated(v, k));
            &&& r.ndv == m.ndv
            &&& r.per_bucket_limit == m.per_bucket_limit
            &&& r.buckets.len() == m.buckets.len()
            &&& r.buckets.last() == (BucketModel {
                count: m.buckets.last().count + k,
                upper: m.buckets.last().upper,
                lower: m.buckets.last().lower,
                repeats: m.buckets.last().repeats + k,
            })
            &&& forall|i: int| 0 <= i < m.buckets.len() - 1 ==> r.buckets[i] == #[trigger] m.buckets[i]
            &&& r.id == m.id
            &&& r.buckets_num == m.buckets_num
        }),
    decreases k,
{
    let vs = repeated(v, k);
    if k == 0 {
        assert(vs.len() == 0);
        assert(m.buckets.last() == (BucketModel {
            count: m.buckets.last().count + 0,
            upper: m.buckets.last().upper,
            lower: m.buckets.last().lower,
            repeats: m.buckets.last().repeats + 0,
        }));
    } else {
        lemma_lex_le_refl(v);
        assert(repeat_of_last(m, v));
        lemma_ingest_preserves(m, v);
        let m1 = ingest(m, v);
        let i = m.buckets.len() - 1;
        assert(m1 == crate::model::bump_last_repeat(m));
        assert(m1.buckets.last() == (BucketModel {
            count: m.buckets.last().count + 1,
            upper: m.buckets.last().upper,
            lower: m.buckets.last().lower,
            repeats: m.buckets.last().repeats + 1,
        }));
        lemma_repeat_absorption(m1, v, (k - 1) as nat);
        assert(vs.drop_first() =~= repeated(v, (k - 1) as nat));
        assert(ingest_all(m, vs) == ingest_all(m1, vs.drop_first()));
        let r = ingest_all(m, vs);
        assert(r.buckets.last() == (BucketModel {
            count: m1.buckets.last().count + (k - 1),
            upper: m1.buckets.last().upper,
            lower: m1.buckets.last().lower,
            repeats: m1.buckets.last().repeats + (k - 1),
        }));
        assert forall|i: int| 0 <= i < m.buckets.len() - 1 implies r.buckets[i]
            == #[trigger] m.buckets[i] by {
            assert(m1.buckets[i] == m.buckets[i]);
            assert(r.buckets[i] == m1.buckets[i]);
        }
    }
}

} // verus!
