use histogram::histogram::Bucket;
use histogram::histogram::Histogram;

/// Order-preserving encoding of a signed integer: flip the sign bit and
/// emit big-endian bytes, so that integer order matches lexicographic
/// byte order.
fn enc(v: i64) -> Vec<u8> {
    ((v as u64) ^ 0x8000_0000_0000_0000u64).to_be_bytes().to_vec()
}

#[test]
fn test_histogram() {
    let buckets_num = 3;
    let mut hist = Histogram::new(1, buckets_num);
    assert_eq!(hist.buckets.len(), 0);

    for item in 0..3 {
        hist.iterate(enc(item));
    }
    // b0: [0]
    // b1: [1]
    // b2: [2]
    assert_eq!(hist.buckets.len(), buckets_num);
    assert_eq!(hist.per_bucket_limit, 1);
    assert_eq!(hist.ndv, 3);

    // bucket is full now, need to merge
    hist.iterate(enc(3));
    // b0: [0, 1]
    // b1: [2, 3]
    assert_eq!(hist.per_bucket_limit, 2);
    assert_eq!(hist.buckets.len(), 2);
    assert_eq!(hist.ndv, 4);

    // push repeated item
    for _ in 0..3 {
        hist.iterate(enc(3));
    }
    // b0: [0, 1]
    // b1: [2, 3, 3, 3, 3]
    assert_eq!(hist.per_bucket_limit, 2);
    assert_eq!(hist.buckets.len(), 2);
    assert_eq!(hist.ndv, 4);

    for _ in 0..4 {
        hist.iterate(enc(4));
    }
    // b0: [0, 1]
    // b1: [2, 3, 3, 3, 3]
    // b2: [4, 4, 4, 4]
    assert_eq!(hist.per_bucket_limit, 2);
    assert_eq!(hist.buckets.len(), 3);
    assert_eq!(hist.ndv, 5);

    // bucket is full now, need to merge
    hist.iterate(enc(5));
    // b0: [0, 1, 2, 3, 3, 3, 3]
    // b1: [4, 4, 4, 4]
    // b2: [5]
    assert_eq!(hist.per_bucket_limit, 4);
    assert_eq!(hist.buckets.len(), 3);
    assert_eq!(hist.ndv, 6);
}

#[test]
fn test_new_initial_state() {
    let hist = Histogram::new(42, 7);
    assert_eq!(hist.id, 42);
    assert_eq!(hist.ndv, 0);
    assert_eq!(hist.buckets.len(), 0);
    assert_eq!(hist.per_bucket_limit, 1);
    assert_eq!(hist.buckets_num, 7);
    assert!(hist.is_last_bucket_full());
}

#[test]
fn test_bucket_operations() {
    let mut b = Bucket::new(3, enc(9), enc(7), 2);
    assert_eq!(b.count, 3);
    assert_eq!(b.upper_bound, enc(9));
    assert_eq!(b.lower_bound, enc(7));
    assert_eq!(b.repeats, 2);

    b.insert_repeated_item();
    assert_eq!(b.count, 4);
    assert_eq!(b.repeats, 3);
    assert_eq!(b.upper_bound, enc(9));
    assert_eq!(b.lower_bound, enc(7));

    b.insert_item(enc(11));
    assert_eq!(b.count, 5);
    assert_eq!(b.repeats, 1);
    assert_eq!(b.upper_bound, enc(11));
    assert_eq!(b.lower_bound, enc(7));
}

#[test]
fn test_monotonic_counts() {
    let mut hist = Histogram::new(0, 4);
    let values = [0, 0, 1, 2, 2, 2, 3, 4, 5, 6, 7, 7, 8];
    for &v in values.iter() {
        hist.iterate(enc(v));
    }
    for i in 1..hist.buckets.len() {
        assert!(hist.buckets[i - 1].count <= hist.buckets[i].count);
    }
    // The last cumulative count is the total number of ingested values.
    assert_eq!(hist.buckets[hist.buckets.len() - 1].count, values.len() as i64);
}

#[test]
fn test_bucket_cap() {
    let mut hist = Histogram::new(0, 2);
    for v in 0..40 {
        hist.iterate(enc(v));
        assert!(hist.buckets.len() <= 2);
    }
}

#[test]
fn test_doubling_law() {
    let mut hist = Histogram::new(0, 3);
    let mut prev_limit = hist.per_bucket_limit;
    assert_eq!(prev_limit, 1);
    for v in 0..100 {
        hist.iterate(enc(v));
        let limit = hist.per_bucket_limit;
        // Always a power of two ...
        assert!(limit >= 1 && (limit & (limit - 1)) == 0);
        // ... that only ever stays or doubles.
        assert!(limit == prev_limit || limit == 2 * prev_limit);
        prev_limit = limit;
    }
    assert!(prev_limit > 1);
}

#[test]
fn test_ndv_accuracy() {
    let mut hist = Histogram::new(0, 10);
    for &v in [0, 0, 1, 1, 1, 2, 3, 3, 4].iter() {
        hist.iterate(enc(v));
    }
    assert_eq!(hist.ndv, 5);
}

#[test]
fn test_repeat_absorption() {
    let mut hist = Histogram::new(0, 3);
    for v in 0..3 {
        hist.iterate(enc(v));
    }
    let ndv = hist.ndv;
    let limit = hist.per_bucket_limit;
    let len = hist.buckets.len();
    let first = (
        hist.buckets[0].count,
        hist.buckets[0].lower_bound.clone(),
        hist.buckets[0].upper_bound.clone(),
        hist.buckets[0].repeats,
    );
    let last_count = hist.buckets[len - 1].count;
    let last_repeats = hist.buckets[len - 1].repeats;

    // Ingest the current boundary value five more times.
    for _ in 0..5 {
        hist.iterate(enc(2));
    }

    // Only the last bucket's count and repeats moved, each by five.
    assert_eq!(hist.ndv, ndv);
    assert_eq!(hist.per_bucket_limit, limit);
    assert_eq!(hist.buckets.len(), len);
    assert_eq!(hist.buckets[0].count, first.0);
    assert_eq!(hist.buckets[0].lower_bound, first.1);
    assert_eq!(hist.buckets[0].upper_bound, first.2);
    assert_eq!(hist.buckets[0].repeats, first.3);
    assert_eq!(hist.buckets[len - 1].count, last_count + 5);
    assert_eq!(hist.buckets[len - 1].repeats, last_repeats + 5);
}

#[test]
fn test_scenario_bucket_bounds() {
    let mut hist = Histogram::new(1, 3);
    for v in 0..4 {
        hist.iterate(enc(v));
    }
    // After the first merge: b0 = [0, 1], b1 = [2, 3].
    assert_eq!(hist.buckets.len(), 2);
    assert_eq!(hist.buckets[0].lower_bound, enc(0));
    assert_eq!(hist.buckets[0].upper_bound, enc(1));
    assert_eq!(hist.buckets[0].count, 2);
    assert_eq!(hist.buckets[0].repeats, 1);
    assert_eq!(hist.buckets[1].lower_bound, enc(2));
    assert_eq!(hist.buckets[1].upper_bound, enc(3));
    assert_eq!(hist.buckets[1].count, 4);
    assert_eq!(hist.buckets[1].repeats, 1);
}

#[test]
fn test_reads_are_repeatable() {
    let mut hist = Histogram::new(0, 3);
    for &v in [0, 1, 1, 2].iter() {
        hist.iterate(enc(v));
    }
    let snapshot1: Vec<(i64, Vec<u8>, Vec<u8>, i64)> = hist
        .buckets
        .iter()
        .map(|b| (b.count, b.lower_bound.clone(), b.upper_bound.clone(), b.repeats))
        .collect();
    let full1 = hist.is_last_bucket_full();
    let snapshot2: Vec<(i64, Vec<u8>, Vec<u8>, i64)> = hist
        .buckets
        .iter()
        .map(|b| (b.count, b.lower_bound.clone(), b.upper_bound.clone(), b.repeats))
        .collect();
    let full2 = hist.is_last_bucket_full();
    assert_eq!(snapshot1, snapshot2);
    assert_eq!(full1, full2);
    assert_eq!(hist.ndv, 3);
}

#[test]
fn test_empty_value_is_valid() {
    let mut hist = Histogram::new(0, 4);
    hist.iterate(Vec::new());
    hist.iterate(Vec::new());
    hist.iterate(enc(0));
    assert_eq!(hist.ndv, 2);
    assert_eq!(hist.buckets.len(), 2);
    assert_eq!(hist.buckets[0].lower_bound, Vec::<u8>::new());
    assert_eq!(hist.buckets[0].upper_bound, Vec::<u8>::new());
    assert_eq!(hist.buckets[0].count, 2);
    assert_eq!(hist.buckets[0].repeats, 2);
}

#[test]
fn test_single_bucket_budget() {
    let mut hist = Histogram::new(0, 1);
    for _ in 0..4 {
        hist.iterate(enc(0));
    }
    assert_eq!(hist.buckets.len(), 1);
    assert_eq!(hist.buckets[0].count, 4);
    assert_eq!(hist.buckets[0].repeats, 4);
    assert_eq!(hist.per_bucket_limit, 1);

    // A new distinct value forces a merge of the lone bucket (which keeps
    // it unchanged but doubles the limit) and then opens a second bucket,
    // because the lone bucket still exceeds the doubled limit.
    hist.iterate(enc(1));
    assert_eq!(hist.buckets.len(), 2);
    assert_eq!(hist.per_bucket_limit, 2);
    assert_eq!(hist.ndv, 2);
    assert_eq!(hist.buckets[0].count, 4);
    assert_eq!(hist.buckets[1].count, 5);

    // The second bucket is not yet full, so the next value extends it.
    hist.iterate(enc(2));
    assert_eq!(hist.buckets.len(), 2);
    assert_eq!(hist.per_bucket_limit, 2);
    assert_eq!(hist.ndv, 3);
    assert_eq!(hist.buckets[1].count, 6);
    assert_eq!(hist.buckets[1].upper_bound, enc(2));
}

#[test]
fn test_each_distinct_value_opens_bucket_at_limit_one() {
    let mut hist = Histogram::new(0, 100);
    for v in 0..10 {
        hist.iterate(enc(v));
    }
    assert_eq!(hist.buckets.len(), 10);
    assert_eq!(hist.per_bucket_limit, 1);
    for i in 0..10 {
        assert_eq!(hist.buckets[i].count, (i as i64) + 1);
        assert_eq!(hist.buckets[i].lower_bound, enc(i as i64));
        assert_eq!(hist.buckets[i].upper_bound, enc(i as i64));
        assert_eq!(hist.buckets[i].repeats, 1);
    }
}
