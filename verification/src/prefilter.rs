//! Choosing candidates for a similarity search by their fingerprints.
use vstd::prelude::*;

use crate::fingerprint::{
    fingerprint_distance, hamming, law_distance_bits, law_distance_bound, law_distance_zero,
    law_fold_contracts, xor_fold,
};
use crate::layout::{FINGERPRINT_BITS, FINGERPRINT_WORDS, FP_SIGMA_APPROX};

verus! {

/// A record that passed the prefilter.
#[derive(Debug)]
pub struct CamCandidate {
    /// Index into the record store.
    pub offset: usize,
    /// Hamming distance of the fingerprint to that of the query.
    pub sketch_distance: u32,
}

impl Clone for CamCandidate {
    fn clone(&self) -> (c: Self)
        ensures
            c == *self,
    {
        CamCandidate { offset: self.offset, sketch_distance: self.sketch_distance }
    }
}

// ---------------------------------------------------------------------------
// Model
// ---------------------------------------------------------------------------
/// The distance of the stored fingerprint at `j` to the query.
pub open spec fn distance_at(
    query: Seq<u64>,
    store: Seq<[u64; FINGERPRINT_WORDS]>,
    j: int,
) -> nat {
    hamming(query, store[j]@)
}

/// The offsets of the stored fingerprints that are no further than
/// `threshold` from the query.
pub open spec fn within(
    query: Seq<u64>,
    store: Seq<[u64; FINGERPRINT_WORDS]>,
    threshold: nat,
) -> Set<int> {
    Set::new(|j: int| 0 <= j < store.len() && distance_at(query, store, j) <= threshold)
}

/// The order of candidates: by distance, and by offset among equals.
pub open spec fn before(d1: nat, o1: int, d2: nat, o2: int) -> bool {
    d1 < d2 || (d1 == d2 && o1 < o2)
}

/// Whether `j` is the offset of a candidate in `res`.
pub open spec fn listed(res: Seq<CamCandidate>, j: int) -> bool {
    exists|i: int| 0 <= i < res.len() && (#[trigger] res[i]).offset == j
}

/// Whether `res` lists the `limit` closest of the stored fingerprints that
/// are within the threshold (all, where there are fewer), the closest first.
pub open spec fn is_closest(
    query: Seq<u64>,
    store: Seq<[u64; FINGERPRINT_WORDS]>,
    threshold: nat,
    limit: nat,
    res: Seq<CamCandidate>,
) -> bool {
    // Each candidate is a stored fingerprint within the threshold.
    &&& forall|i: int|
        0 <= i < res.len() ==> {
            &&& within(query, store, threshold).contains((#[trigger] res[i]).offset as int)
            &&& res[i].sketch_distance == distance_at(query, store, res[i].offset as int)
        }
    // They stand in order, so none stands twice.
    &&& forall|i: int, k: int|
        0 <= i < k < res.len() ==> before(
            (#[trigger] res[i]).sketch_distance as nat,
            res[i].offset as int,
            (#[trigger] res[k]).sketch_distance as nat,
            res[k].offset as int,
        )
    &&& res.len() <= limit
    // What is within the threshold and not listed had to give way to a full
    // list, all of which comes before it.
    &&& forall|j: int| #[trigger]
        within(query, store, threshold).contains(j) && !listed(res, j) ==> {
            &&& res.len() == limit
            &&& forall|i: int|
                0 <= i < res.len() ==> before(
                    (#[trigger] res[i]).sketch_distance as nat,
                    res[i].offset as int,
                    distance_at(query, store, j),
                    j,
                )
        }
}

// ---------------------------------------------------------------------------
// Operations
// ---------------------------------------------------------------------------
/// Whether `buckets` holds, for each distance, the offsets below `n` of the
/// stored fingerprints at that distance, in ascending order.
spec fn sorted_into(
    query: Seq<u64>,
    store: Seq<[u64; FINGERPRINT_WORDS]>,
    n: int,
    buckets: Seq<Vec<usize>>,
) -> bool {
    &&& forall|d: int, i: int|
        0 <= d < buckets.len() && 0 <= i < buckets[d]@.len() ==> {
            &&& (#[trigger] buckets[d]@[i]) < n
            &&& distance_at(query, store, buckets[d]@[i] as int) == d
        }
    &&& forall|d: int, i: int, k: int|
        0 <= d < buckets.len() && 0 <= i < k < buckets[d]@.len() ==> (#[trigger] buckets[d]@[i])
            < (#[trigger] buckets[d]@[k])
    &&& forall|j: int|
        0 <= j < n && (#[trigger] distance_at(query, store, j)) < buckets.len() ==> exists|i: int|
            0 <= i < buckets[distance_at(query, store, j) as int]@.len()
                && #[trigger] buckets[distance_at(query, store, j) as int]@[i] == j
}

/// The offsets of the stored fingerprints, sorted into one bucket for each
/// distance below `levels`.
fn bucket_by_distance(
    query_fp: &[u64; FINGERPRINT_WORDS],
    store_fps: &[[u64; FINGERPRINT_WORDS]],
    levels: usize,
) -> (buckets: Vec<Vec<usize>>)
    ensures
        buckets@.len() == levels,
        sorted_into(query_fp@, store_fps@, store_fps@.len() as int, buckets@),
{
    let mut buckets: Vec<Vec<usize>> = Vec::with_capacity(levels);
    let mut b: usize = 0;
    while b < levels
        invariant
            b <= levels,
            buckets@.len() == b,
            forall|d: int| 0 <= d < b ==> (#[trigger] buckets@[d])@.len() == 0,
        decreases levels - b,
    {
        buckets.push(Vec::new());
        b = b + 1;
    }
    let mut i: usize = 0;
    while i < store_fps.len()
        invariant
            i <= store_fps@.len(),
            buckets@.len() == levels,
            sorted_into(query_fp@, store_fps@, i as int, buckets@),
        decreases store_fps@.len() - i,
    {
        let d: usize = fingerprint_distance(query_fp, &store_fps[i]) as usize;
        let ghost prior = buckets@;
        assert(d == distance_at(query_fp@, store_fps@, i as int));
        if d < levels {
            buckets[d].push(i);
            proof {
                assert(buckets@[d as int]@ == prior[d as int]@.push(i));
                assert forall|e: int| 0 <= e < buckets@.len() && e != d implies buckets@[e]
                    == prior[e] by {}
                assert(buckets@[d as int]@[prior[d as int]@.len() as int] == i);
                assert forall|j: int|
                    0 <= j < i + 1 && (#[trigger] distance_at(query_fp@, store_fps@, j))
                        < buckets@.len() implies exists|k: int|
                    0 <= k < buckets@[distance_at(query_fp@, store_fps@, j) as int]@.len()
                        && #[trigger] buckets@[distance_at(query_fp@, store_fps@, j) as int]@[k]
                        == j by {
                    let e = distance_at(query_fp@, store_fps@, j) as int;
                    if j < i {
                        let k = choose|k: int|
                            0 <= k < prior[e]@.len() && #[trigger] prior[e]@[k] == j;
                        assert(buckets@[e]@[k] == j);
                    }
                }
            }
        }
        i = i + 1;
    }
    buckets
}

/// Lists the stored fingerprints that are within `threshold` of the query,
/// the closest first, and at most `max_candidates` of them. Among equally
/// close ones the lower offset comes first.
pub fn cam_prefilter(
    query_fp: &[u64; FINGERPRINT_WORDS],
    store_fps: &[[u64; FINGERPRINT_WORDS]],
    threshold: u32,
    max_candidates: usize,
) -> (res: Vec<CamCandidate>)
    ensures
        is_closest(
            query_fp@,
            store_fps@,
            threshold as nat,
            max_candidates as nat,
            res@,
        ),
        res@.len() == if within(query_fp@, store_fps@, threshold as nat).len()
            < max_candidates {
            within(query_fp@, store_fps@, threshold as nat).len()
        } else {
            max_candidates as nat
        },
{
    // No distance exceeds the number of bits, so this many buckets suffice.
    let levels: usize = if (threshold as usize) < FINGERPRINT_BITS {
        threshold as usize + 1
    } else {
        FINGERPRINT_BITS + 1
    };
    let buckets = bucket_by_distance(query_fp, store_fps, levels);
    let mut res: Vec<CamCandidate> = Vec::new();
    let ghost near = within(query_fp@, store_fps@, threshold as nat);
    proof {
        assert forall|j: int| 0 <= j < store_fps@.len() implies (near.contains(j) <==> (
        #[trigger] distance_at(query_fp@, store_fps@, j)) < levels) by {
            law_distance_bound(query_fp@, store_fps@[j]@);
        }
    }
    let mut d: usize = 0;
    while d < levels
        invariant
            d <= levels,
            levels <= FINGERPRINT_BITS + 1,
            levels <= threshold + 1,
            buckets@.len() == levels,
            sorted_into(query_fp@, store_fps@, store_fps@.len() as int, buckets@),
            near == within(query_fp@, store_fps@, threshold as nat),
            forall|j: int|
                0 <= j < store_fps@.len() ==> (near.contains(j) <==> (#[trigger] distance_at(
                    query_fp@,
                    store_fps@,
                    j,
                )) < levels),
            res@.len() <= max_candidates,
            closer_than(query_fp@, store_fps@, d as int, res@),
        decreases levels - d,
    {
        let ghost base = res@;
        let bucket: &Vec<usize> = &buckets[d];
        let mut k: usize = 0;
        while k < bucket.len()
            invariant
                d < levels,
                levels <= FINGERPRINT_BITS + 1,
                levels <= threshold + 1,
                buckets@.len() == levels,
                bucket == buckets@[d as int],
                sorted_into(query_fp@, store_fps@, store_fps@.len() as int, buckets@),
                near == within(query_fp@, store_fps@, threshold as nat),
                forall|j: int|
                    0 <= j < store_fps@.len() ==> (near.contains(j) <==> (#[trigger] distance_at(
                        query_fp@,
                        store_fps@,
                        j,
                    )) < levels),
                closer_than(query_fp@, store_fps@, d as int, base),
                k <= bucket@.len(),
                res@.len() == base.len() + k,
                res@.len() <= max_candidates,
                forall|i: int| 0 <= i < base.len() ==> res@[i] == base[i],
                forall|i: int|
                    0 <= i < k ==> (#[trigger] res@[base.len() + i]).offset == bucket@[i]
                        && res@[base.len() + i].sketch_distance == d,
            decreases bucket@.len() - k,
        {
            if res.len() == max_candidates {
                proof {
                    lemma_full(
                        query_fp@,
                        store_fps@,
                        threshold as nat,
                        base,
                        buckets@,
                        d as int,
                        k as int,
                        res@,
                    );
                    law_closest_count(
                        query_fp@,
                        store_fps@,
                        threshold as nat,
                        max_candidates as nat,
                        res@,
                    );
                }
                return res;
            }
            res.push(CamCandidate { offset: bucket[k], sketch_distance: d as u32 });
            k = k + 1;
        }
        proof {
            lemma_next_level(query_fp@, store_fps@, base, buckets@, d as int, res@);
        }
        d = d + 1;
    }
    proof {
        law_closest_count(
            query_fp@,
            store_fps@,
            threshold as nat,
            max_candidates as nat,
            res@,
        );
    }
    res
}

/// Whether `res` lists, in order, the stored fingerprints at a distance below
/// `d`, and nothing else.
spec fn closer_than(
    query: Seq<u64>,
    store: Seq<[u64; FINGERPRINT_WORDS]>,
    d: int,
    res: Seq<CamCandidate>,
) -> bool {
    &&& forall|i: int|
        0 <= i < res.len() ==> {
            &&& (#[trigger] res[i]).offset < store.len()
            &&& res[i].sketch_distance == distance_at(query, store, res[i].offset as int)
            &&& res[i].sketch_distance < d
        }
    &&& forall|i: int, k: int|
        0 <= i < k < res.len() ==> before(
            (#[trigger] res[i]).sketch_distance as nat,
            res[i].offset as int,
            (#[trigger] res[k]).sketch_distance as nat,
            res[k].offset as int,
        )
    &&& forall|j: int|
        0 <= j < store.len() && (#[trigger] distance_at(query, store, j)) < d ==> listed(res, j)
}

/// Appending the bucket of distance `d` completes the list below `d + 1`.
proof fn lemma_next_level(
    query: Seq<u64>,
    store: Seq<[u64; FINGERPRINT_WORDS]>,
    base: Seq<CamCandidate>,
    buckets: Seq<Vec<usize>>,
    d: int,
    res: Seq<CamCandidate>,
)
    requires
        0 <= d < buckets.len(),
        sorted_into(query, store, store.len() as int, buckets),
        closer_than(query, store, d, base),
        res.len() == base.len() + buckets[d]@.len(),
        forall|i: int| 0 <= i < base.len() ==> res[i] == base[i],
        forall|i: int|
            0 <= i < buckets[d]@.len() ==> (#[trigger] res[base.len() + i]).offset
                == buckets[d]@[i] && res[base.len() + i].sketch_distance == d,
    ensures
        closer_than(query, store, d + 1, res),
{
    let n = base.len() as int;
    assert forall|i: int| 0 <= i < res.len() implies {
        &&& (#[trigger] res[i]).offset < store.len()
        &&& res[i].sketch_distance == distance_at(query, store, res[i].offset as int)
        &&& res[i].sketch_distance < d + 1
    } by {
        if i < n {
            assert(res[i] == base[i]);
        } else {
            assert(res[n + (i - n)].offset == buckets[d]@[i - n]);
        }
    }
    assert forall|i: int, k: int| 0 <= i < k < res.len() implies before(
        (#[trigger] res[i]).sketch_distance as nat,
        res[i].offset as int,
        (#[trigger] res[k]).sketch_distance as nat,
        res[k].offset as int,
    ) by {
        if i < n {
            assert(res[i] == base[i]);
        } else {
            assert(res[n + (i - n)].offset == buckets[d]@[i - n]);
        }
        if k < n {
            assert(res[k] == base[k]);
        } else {
            assert(res[n + (k - n)].offset == buckets[d]@[k - n]);
        }
    }
    assert forall|j: int|
        0 <= j < store.len() && (#[trigger] distance_at(query, store, j)) < d + 1 implies listed(
        res,
        j,
    ) by {
        if distance_at(query, store, j) < d {
            let i = choose|i: int| 0 <= i < base.len() && (#[trigger] base[i]).offset == j;
            assert(res[i].offset == j);
        } else {
            let i = choose|i: int| 0 <= i < buckets[d]@.len() && #[trigger] buckets[d]@[i] == j;
            assert(res[n + i].offset == j);
        }
    }
}

/// A list that is full after part of the bucket of distance `d` holds the
/// closest.
proof fn lemma_full(
    query: Seq<u64>,
    store: Seq<[u64; FINGERPRINT_WORDS]>,
    threshold: nat,
    base: Seq<CamCandidate>,
    buckets: Seq<Vec<usize>>,
    d: int,
    k: int,
    res: Seq<CamCandidate>,
)
    requires
        0 <= d < buckets.len(),
        0 <= k <= buckets[d]@.len(),
        d <= threshold,
        sorted_into(query, store, store.len() as int, buckets),
        closer_than(query, store, d, base),
        res.len() == base.len() + k,
        forall|i: int| 0 <= i < base.len() ==> res[i] == base[i],
        forall|i: int|
            0 <= i < k ==> (#[trigger] res[base.len() + i]).offset == buckets[d]@[i]
                && res[base.len() + i].sketch_distance == d,
    ensures
        is_closest(query, store, threshold, res.len(), res),
{
    let n = base.len() as int;
    assert forall|i: int| 0 <= i < res.len() implies {
        &&& within(query, store, threshold).contains((#[trigger] res[i]).offset as int)
        &&& res[i].sketch_distance == distance_at(query, store, res[i].offset as int)
    } by {
        if i < n {
            assert(res[i] == base[i]);
        } else {
            assert(res[n + (i - n)].offset == buckets[d]@[i - n]);
        }
    }
    assert forall|i: int, m: int| 0 <= i < m < res.len() implies before(
        (#[trigger] res[i]).sketch_distance as nat,
        res[i].offset as int,
        (#[trigger] res[m]).sketch_distance as nat,
        res[m].offset as int,
    ) by {
        if i < n {
            assert(res[i] == base[i]);
        } else {
            assert(res[n + (i - n)].offset == buckets[d]@[i - n]);
        }
        if m < n {
            assert(res[m] == base[m]);
        } else {
            assert(res[n + (m - n)].offset == buckets[d]@[m - n]);
        }
    }
    assert forall|j: int| #[trigger]
        within(query, store, threshold).contains(j) && !listed(res, j) implies (forall|i: int|
        0 <= i < res.len() ==> before(
            (#[trigger] res[i]).sketch_distance as nat,
            res[i].offset as int,
            distance_at(query, store, j),
            j,
        )) by {
        if distance_at(query, store, j) < d {
            let i = choose|i: int| 0 <= i < base.len() && (#[trigger] base[i]).offset == j;
            assert(res[i].offset == j);
        }
        assert forall|i: int| 0 <= i < res.len() implies before(
            (#[trigger] res[i]).sketch_distance as nat,
            res[i].offset as int,
            distance_at(query, store, j),
            j,
        ) by {
            if i < n {
                assert(res[i] == base[i]);
            } else {
                assert(res[n + (i - n)].offset == buckets[d]@[i - n]);
                if distance_at(query, store, j) == d {
                    let m = choose|m: int|
                        0 <= m < buckets[d]@.len() && #[trigger] buckets[d]@[m] == j;
                    if m < k {
                        assert(res[n + m].offset == j);
                    }
                }
            }
        }
    }
}

/// Adds a margin of two standard deviations to the distance that is expected
/// at a similarity, so that few records of that similarity are missed.
pub fn threshold_with_margin(expected_distance: u32) -> (t: u32)
    ensures
        expected_distance + 2 * FP_SIGMA_APPROX <= u32::MAX ==> t == expected_distance + 2
            * FP_SIGMA_APPROX,
        expected_distance + 2 * FP_SIGMA_APPROX > u32::MAX ==> t == u32::MAX,
        expected_distance <= u32::MAX - 46 ==> t == expected_distance + 46,
{
    expected_distance.saturating_add(2 * FP_SIGMA_APPROX)
}

// ---------------------------------------------------------------------------
// Laws
// ---------------------------------------------------------------------------
/// The distance of a stored fingerprint is the number of places, a word and a
/// bit of it, at which it and the query hold different bits, and its offset is
/// within a threshold exactly where that number is no larger.
pub proof fn law_within_bits(
    query: Seq<u64>,
    store: Seq<[u64; FINGERPRINT_WORDS]>,
    threshold: nat,
    j: int,
)
    requires
        query.len() == 32,
    ensures
        0 <= j < store.len() ==> distance_at(query, store, j) == Set::new(
            |p: (int, int)|
                0 <= p.0 < 32 && 0 <= p.1 < 64 && (query[p.0] >> p.1 as u64) & 1 != (store[j]@[p.0]
                    >> p.1 as u64) & 1,
        ).len(),
        within(query, store, threshold).contains(j) <==> 0 <= j < store.len() && Set::new(
            |p: (int, int)|
                0 <= p.0 < 32 && 0 <= p.1 < 64 && (query[p.0] >> p.1 as u64) & 1 != (store[j]@[p.0]
                    >> p.1 as u64) & 1,
        ).len() <= threshold,
{
    if 0 <= j < store.len() {
        law_distance_bits(query, store[j]@);
        assert(Set::new(
        |p: (int, int)|
            0 <= p.0 < 32 && 0 <= p.1 < 64 && (query[p.0] >> p.1 as u64) & 1 != (store[j]@[p.0]
                >> p.1 as u64) & 1,
    ) =~= Set::new(
            |p: (int, int)|
                0 <= p.0 < query.len() && 0 <= p.1 < 64 && (query[p.0] >> p.1 as u64) & 1 != (
                store[j]@[p.0] >> p.1 as u64) & 1,
        ));
    }
}

/// What a candidate is: its offset is that of a stored fingerprint, and its
/// distance is the number of places, a word and a bit of it, at which that
/// fingerprint and the query hold different bits, which is no larger than the
/// threshold. The next candidate is further away, or as far away and at a
/// higher offset, and there are no more candidates than the limit.
pub proof fn law_candidate(
    query: Seq<u64>,
    store: Seq<[u64; FINGERPRINT_WORDS]>,
    threshold: nat,
    limit: nat,
    res: Seq<CamCandidate>,
    i: int,
)
    requires
        query.len() == 32,
        is_closest(query, store, threshold, limit, res),
        0 <= i < res.len(),
    ensures
        res.len() <= limit,
        res[i].offset < store.len(),
        res[i].sketch_distance <= threshold,
        res[i].sketch_distance == Set::new(
            |p: (int, int)|
                0 <= p.0 < 32 && 0 <= p.1 < 64 && (query[p.0] >> p.1 as u64) & 1 != (store[res[i].offset as int]@[p.0]
                    >> p.1 as u64) & 1,
        ).len(),
        i + 1 < res.len() ==> res[i].sketch_distance < res[i + 1].sketch_distance || (
        res[i].sketch_distance == res[i + 1].sketch_distance && res[i].offset < res[i + 1].offset),
{
    let j = res[i].offset as int;
    law_within_bits(query, store, threshold, j);
    assert(Set::new(
        |p: (int, int)|
            0 <= p.0 < 32 && 0 <= p.1 < 64 && (query[p.0] >> p.1 as u64) & 1 != (store[j]@[p.0]
                >> p.1 as u64) & 1,
    ) =~= Set::new(
        |p: (int, int)|
            0 <= p.0 < 32 && 0 <= p.1 < 64 && (query[p.0] >> p.1 as u64) & 1 != (store[res[i].offset as int]@[p.0]
                >> p.1 as u64) & 1,
    ));
}

/// What is left out: a stored fingerprint that differs from the query in no
/// more places than the threshold is the fingerprint of a candidate, or the
/// list is full and its last candidate is closer, or as close and at a lower
/// offset.
pub proof fn law_left_out(
    query: Seq<u64>,
    store: Seq<[u64; FINGERPRINT_WORDS]>,
    threshold: nat,
    limit: nat,
    res: Seq<CamCandidate>,
    j: int,
    d: nat,
)
    requires
        query.len() == 32,
        is_closest(query, store, threshold, limit, res),
        0 <= j < store.len(),
        d == Set::new(
            |p: (int, int)|
                0 <= p.0 < 32 && 0 <= p.1 < 64 && (query[p.0] >> p.1 as u64) & 1 != (store[j]@[p.0]
                    >> p.1 as u64) & 1,
        ).len(),
        d <= threshold,
    ensures
        (exists|i: int| 0 <= i < res.len() && (#[trigger] res[i]).offset == j) || (res.len()
            == limit && (limit > 0 ==> res[limit - 1].sketch_distance < d || (
        res[limit - 1].sketch_distance == d && res[limit - 1].offset < j))),
{
    law_within_bits(query, store, threshold, j);
    assert(Set::new(
        |p: (int, int)|
            0 <= p.0 < 32 && 0 <= p.1 < 64 && (query[p.0] >> p.1 as u64) & 1 != (store[j]@[p.0]
                >> p.1 as u64) & 1,
    ).len() == distance_at(query, store, j));
    if !listed(res, j) {
        assert(within(query, store, threshold).contains(j));
        if limit > 0 {
            let last = res[limit - 1];
            assert(before(
                last.sketch_distance as nat,
                last.offset as int,
                distance_at(query, store, j),
                j,
            ));
        }
    }
}

/// With the threshold zero, what is within it is what equals the query.
pub proof fn law_zero_threshold(query: Seq<u64>, store: Seq<[u64; FINGERPRINT_WORDS]>, j: int)
    requires
        query.len() == FINGERPRINT_WORDS,
    ensures
        within(query, store, 0).contains(j) <==> 0 <= j < store.len() && store[j]@ == query,
{
    if 0 <= j < store.len() {
        law_distance_zero(query, store[j]@);
    }
}

/// With a threshold of all bits, everything is within it.
pub proof fn law_full_threshold(
    query: Seq<u64>,
    store: Seq<[u64; FINGERPRINT_WORDS]>,
    threshold: nat,
    j: int,
)
    requires
        query.len() == FINGERPRINT_WORDS,
        threshold >= FINGERPRINT_BITS,
    ensures
        within(query, store, threshold).contains(j) <==> 0 <= j < store.len(),
{
    if 0 <= j < store.len() {
        law_distance_bound(query, store[j]@);
    }
}

/// A wider threshold loses nothing.
pub proof fn law_wider_threshold(
    query: Seq<u64>,
    store: Seq<[u64; FINGERPRINT_WORDS]>,
    narrow: nat,
    wide: nat,
)
    requires
        narrow <= wide,
    ensures
        within(query, store, narrow).subset_of(within(query, store, wide)),
{
}

/// The prefilter misses nothing that is close: where the stored content is
/// within the threshold of the query's content, so is its fingerprint.
pub proof fn law_close_content_promoted(
    query_content: Seq<u64>,
    content: Seq<u64>,
    store: Seq<[u64; FINGERPRINT_WORDS]>,
    threshold: nat,
    j: int,
)
    requires
        0 <= j < store.len(),
        store[j]@ == xor_fold(content),
        query_content.len() == content.len(),
        hamming(query_content, content) <= threshold,
    ensures
        within(xor_fold(query_content), store, threshold).contains(j),
{
    law_fold_contracts(query_content, content);
}

/// The list is as long as the limit allows: all that is within the threshold,
/// or `limit` of it.
pub proof fn law_closest_count(
    query: Seq<u64>,
    store: Seq<[u64; FINGERPRINT_WORDS]>,
    threshold: nat,
    limit: nat,
    res: Seq<CamCandidate>,
)
    requires
        is_closest(query, store, threshold, limit, res),
    ensures
        within(query, store, threshold).finite(),
        res.len() == if within(query, store, threshold).len() < limit {
            within(query, store, threshold).len()
        } else {
            limit
        },
{
    let near = within(query, store, threshold);
    let range = vstd::set_lib::set_int_range(0, store.len() as int);
    vstd::set_lib::lemma_int_range(0, store.len() as int);
    vstd::set_lib::lemma_set_subset_finite(range, near);
    let offsets = res.map_values(|c: CamCandidate| c.offset as int);
    assert forall|i: int, k: int|
        0 <= i < offsets.len() && 0 <= k < offsets.len() && i != k implies offsets[i]
        != offsets[k] by {
        assert(res[i].sketch_distance == distance_at(query, store, res[i].offset as int));
        assert(res[k].sketch_distance == distance_at(query, store, res[k].offset as int));
    }
    offsets.unique_seq_to_set();
    let set = offsets.to_set();
    assert forall|j: int| #[trigger] set.contains(j) implies near.contains(j) by {
        let i = choose|i: int| 0 <= i < offsets.len() && offsets[i] == j;
        assert(res[i].offset == j);
    }
    vstd::set_lib::lemma_len_subset(set, near);
    if res.len() < limit {
        assert forall|j: int| near.contains(j) implies #[trigger] set.contains(j) by {
            assert(listed(res, j));
            let i = choose|i: int| 0 <= i < res.len() && (#[trigger] res[i]).offset == j;
            assert(offsets[i] == j);
        }
        assert(set =~= near);
    }
}

/// A wider threshold and a larger limit only extend the list: it goes on
/// where the shorter one ends. With equal thresholds and limits the two are
/// the same: the contract leaves one result.
pub proof fn law_closest_prefix(
    query: Seq<u64>,
    store: Seq<[u64; FINGERPRINT_WORDS]>,
    narrow: nat,
    wide: nat,
    small: nat,
    large: nat,
    short: Seq<CamCandidate>,
    long: Seq<CamCandidate>,
)
    requires
        narrow <= wide,
        small <= large,
        is_closest(query, store, narrow, small, short),
        is_closest(query, store, wide, large, long),
    ensures
        short.len() <= long.len(),
        short == long.take(short.len() as int),
        narrow == wide && small == large ==> short == long,
{
    lemma_prefix_upto(query, store, narrow, wide, small, large, short, long, short.len() as int);
    assert(short =~= long.take(short.len() as int));
    if narrow == wide && small == large {
        lemma_prefix_upto(query, store, wide, narrow, large, small, long, short, long.len() as int);
        assert(short =~= long);
    }
}

/// The first `n` candidates of the two lists are the same.
proof fn lemma_prefix_upto(
    query: Seq<u64>,
    store: Seq<[u64; FINGERPRINT_WORDS]>,
    narrow: nat,
    wide: nat,
    small: nat,
    large: nat,
    short: Seq<CamCandidate>,
    long: Seq<CamCandidate>,
    n: int,
)
    requires
        narrow <= wide,
        small <= large,
        is_closest(query, store, narrow, small, short),
        is_closest(query, store, wide, large, long),
        0 <= n <= short.len(),
    ensures
        n <= long.len(),
        forall|i: int| 0 <= i < n ==> short[i] == long[i],
    decreases n,
{
    if n > 0 {
        let i = n - 1;
        lemma_prefix_upto(query, store, narrow, wide, small, large, short, long, i);
        let a = short[i];
        assert(within(query, store, narrow).contains(a.offset as int));
        assert(within(query, store, wide).contains(a.offset as int));
        if listed(long, a.offset as int) {
            let m = choose|m: int|
                0 <= m < long.len() && (#[trigger] long[m]).offset == a.offset as int;
            assert(long[m].sketch_distance == a.sketch_distance);
            if m < i {
                assert(short[m] == long[m]);
            }
        }
        assert(i < long.len());
        let b = long[i];
        assert(within(query, store, wide).contains(b.offset as int));
        if b.offset != a.offset {
            assert(before(
                b.sketch_distance as nat,
                b.offset as int,
                a.sketch_distance as nat,
                a.offset as int,
            ));
            assert(within(query, store, narrow).contains(b.offset as int));
            if listed(short, b.offset as int) {
                let m = choose|m: int|
                    0 <= m < short.len() && (#[trigger] short[m]).offset == b.offset as int;
                assert(short[m].sketch_distance == b.sketch_distance);
                if m < i {
                    assert(short[m] == long[m]);
                }
            }
            assert(false);
        }
    }
}

} // verus!
