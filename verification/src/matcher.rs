//! Feature stores and the nearest-neighbour search under the Hamming
//! distance that feature matching rests on: for a query descriptor, the
//! closest and second-closest reference descriptors of the same extremum
//! type, among all references or among a candidate list.

use vstd::prelude::*;
use crate::clustering::{hamming, hamming_distance_96_at, lemma_hamming_prefix_bound, KpmError};
use crate::hough::FeaturePoint;

verus! {

/// Bytes per FREAK descriptor, the only size the matcher compares.
pub const FEATURE_SIZE: usize = 96;

/// Feature points with their descriptors stored back to back.
pub struct FeatureStore {
    points: Vec<FeaturePoint>,
    descriptors: Vec<u8>,
    bytes_per_feature: usize,
}

/// The points, the concatenated descriptors and the descriptor size.
pub struct FeatureStoreModel {
    pub points: Seq<FeaturePoint>,
    pub descriptors: Seq<u8>,
    pub bytes_per_feature: nat,
}

impl View for FeatureStore {
    type V = FeatureStoreModel;

    closed spec fn view(&self) -> FeatureStoreModel {
        FeatureStoreModel {
            points: self.points@,
            descriptors: self.descriptors@,
            bytes_per_feature: self.bytes_per_feature as nat,
        }
    }
}

/// One descriptor per point, each `bytes_per_feature` long.
pub open spec fn store_wf(m: FeatureStoreModel) -> bool {
    m.bytes_per_feature > 0 && m.descriptors.len() == m.points.len() * m.bytes_per_feature
}

/// Descriptor of feature `i`.
pub open spec fn descriptor_of(m: FeatureStoreModel, i: int) -> Seq<u8> {
    m.descriptors.subrange(i * m.bytes_per_feature, (i + 1) * m.bytes_per_feature)
}

proof fn lemma_row_in_bounds(i: int, n: int, w: int)
    by (nonlinear_arith)
    requires
        0 <= i < n,
        w > 0,
    ensures
        0 <= i * w,
        i * w + w == (i + 1) * w,
        (i + 1) * w <= n * w,
{
    assert((i + 1) * w <= n * w);
}

impl FeatureStore {
    /// An empty store for descriptors of `bytes_per_feature` bytes, which
    /// must be positive.
    pub fn new(bytes_per_feature: usize) -> (r: Result<Self, KpmError>)
        ensures
            bytes_per_feature == 0 ==> r matches Err(KpmError::InvalidInput(_)),
            bytes_per_feature > 0 ==> (r matches Ok(s) && store_wf(s@) && s@.points.len() == 0
                && s@.bytes_per_feature == bytes_per_feature),
    {
        if bytes_per_feature == 0 {
            return Err(KpmError::InvalidInput("bytes_per_feature must be > 0".to_owned()));
        }
        Ok(FeatureStore { points: Vec::new(), descriptors: Vec::new(), bytes_per_feature })
    }

    /// Appends a point and its descriptor; the descriptor must have
    /// `bytes_per_feature` bytes, else the store is left unchanged.
    pub fn add(&mut self, point: FeaturePoint, descriptor: &[u8]) -> (r: Result<(), KpmError>)
        requires
            store_wf(old(self)@),
        ensures
            store_wf(final(self)@),
            descriptor@.len() != old(self)@.bytes_per_feature ==> (r matches Err(KpmError::InvalidInput(_))
                && final(self)@ == old(self)@),
            descriptor@.len() == old(self)@.bytes_per_feature ==> (r is Ok && final(self)@ == (FeatureStoreModel {
                points: old(self)@.points.push(point),
                descriptors: old(self)@.descriptors + descriptor@,
                bytes_per_feature: old(self)@.bytes_per_feature,
            })),
    {
        if descriptor.len() != self.bytes_per_feature {
            return Err(KpmError::InvalidInput("descriptor length does not match bytes_per_feature".to_owned()));
        }
        proof {
            let n = self.points@.len() as int;
            let w = self.bytes_per_feature as int;
            assert(n * w + w == (n + 1) * w) by (nonlinear_arith);
        }
        self.points.push(point);
        let ghost before = self.descriptors@;
        let mut k: usize = 0;
        while k < descriptor.len()
            invariant
                k <= descriptor@.len(),
                self.descriptors@ == before + descriptor@.subrange(0, k as int),
                before == old(self)@.descriptors,
                self.points@ == old(self)@.points.push(point),
                self.bytes_per_feature == old(self)@.bytes_per_feature,
                descriptor@.len() == self.bytes_per_feature,
                store_wf(old(self)@),
                old(self)@.points.len() * old(self)@.bytes_per_feature + old(self)@.bytes_per_feature == (
                old(self)@.points.len() + 1) * old(self)@.bytes_per_feature,
            decreases descriptor@.len() - k,
        {
            self.descriptors.push(descriptor[k]);
            k = k + 1;
            proof {
                assert(self.descriptors@ =~= before + descriptor@.subrange(0, k as int));
            }
        }
        proof {
            assert(descriptor@.subrange(0, descriptor@.len() as int) =~= descriptor@);
        }
        Ok(())
    }

    /// Number of features.
    pub fn num_features(&self) -> (r: usize)
        ensures
            r == self@.points.len(),
    {
        self.points.len()
    }

    /// Descriptor of feature `i`.
    pub fn descriptor(&self, i: usize) -> (r: &[u8])
        requires
            store_wf(self@),
            i < self@.points.len(),
        ensures
            r@ == descriptor_of(self@, i as int),
    {
        proof {
            lemma_row_in_bounds(i as int, self.points@.len() as int, self.bytes_per_feature as int);
        }
        let _len = self.descriptors.len();
        let start = i * self.bytes_per_feature;
        vstd::slice::slice_subrange(self.descriptors.as_slice(), start, start + self.bytes_per_feature)
    }

    /// Point of feature `i`.
    pub fn point(&self, i: usize) -> (r: &FeaturePoint)
        requires
            i < self@.points.len(),
        ensures
            *r == self@.points[i as int],
    {
        &self.points[i]
    }

    /// Bytes per descriptor.
    pub fn bytes_per_feature(&self) -> (r: usize)
        ensures
            r == self@.bytes_per_feature,
    {
        self.bytes_per_feature
    }
}

/// Both stores hold 96-byte descriptors, the only size the matcher compares.
pub fn ensure_feature_size(query: &FeatureStore, reference: &FeatureStore) -> (r: Result<(), KpmError>)
    ensures
        r is Ok <==> query@.bytes_per_feature == FEATURE_SIZE && reference@.bytes_per_feature == FEATURE_SIZE,
        r matches Err(e) ==> e is InvalidInput,
{
    if query.bytes_per_feature() != FEATURE_SIZE || reference.bytes_per_feature() != FEATURE_SIZE {
        return Err(KpmError::InvalidInput("FeatureMatcher only supports 96-byte features".to_owned()));
    }
    Ok(())
}

/// Result of a nearest-neighbour scan: the position of the closest
/// reference (`-1` when none qualified), its distance and the second
/// smallest distance (`u32::MAX` standing for none).
#[derive(Clone, Copy, Debug, PartialEq, Eq)]
pub struct NearestTwo {
    pub best_index: i32,
    pub first: u32,
    pub second: u32,
}

/// Distance between descriptor `q` and reference feature `j`.
pub open spec fn distance_to(q: Seq<u8>, r: FeatureStoreModel, j: int) -> int {
    hamming(q, descriptor_of(r, j)) as int
}

/// Scan of the candidates in order, skipping references whose extremum
/// type differs from `qmax`: a distance below the best so far becomes the
/// best (the former best moving to second place); one below the second
/// only becomes the second.
pub open spec fn nearest_two(q: Seq<u8>, qmax: bool, r: FeatureStoreModel, cands: Seq<usize>) -> (int, int, int)
    decreases cands.len(),
{
    if cands.len() == 0 {
        (-1, u32::MAX as int, u32::MAX as int)
    } else {
        let (b, f, s) = nearest_two(q, qmax, r, cands.drop_last());
        let j = cands.last() as int;
        if r.points[j].maxima != qmax {
            (b, f, s)
        } else {
            let d = distance_to(q, r, j);
            if d < f {
                (j, d, f)
            } else if d < s {
                (b, f, d)
            } else {
                (b, f, s)
            }
        }
    }
}

/// The positions `0..n` in order.
pub open spec fn all_positions(n: nat) -> Seq<usize> {
    Seq::new(n, |j: int| j as usize)
}

proof fn lemma_nearest_two_bounds(q: Seq<u8>, qmax: bool, r: FeatureStoreModel, cands: Seq<usize>)
    requires
        q.len() == 96,
        r.bytes_per_feature == 96,
        store_wf(r),
        forall|t: int| 0 <= t < cands.len() ==> #[trigger] cands[t] < r.points.len(),
    ensures
        -1 <= nearest_two(q, qmax, r, cands).0 < r.points.len(),
        0 <= nearest_two(q, qmax, r, cands).1 <= nearest_two(q, qmax, r, cands).2 <= u32::MAX,
    decreases cands.len(),
{
    if cands.len() > 0 {
        lemma_nearest_two_bounds(q, qmax, r, cands.drop_last());
        let j = cands.last() as int;
        lemma_hamming_prefix_bound(q, descriptor_of(r, j), 96);
    }
}

/// Reference feature `j` has the extremum type `qmax`.
pub open spec fn same_type(r: FeatureStoreModel, qmax: bool, j: int) -> bool {
    r.points[j].maxima == qmax
}

/// What the scan finds: the best distance is the least over the candidates
/// of the query's type and is reached by the reported position (`-1`
/// exactly when no candidate qualifies), and no two candidate positions
/// both lie below the second distance.
pub proof fn lemma_nearest_two_is_minimum(q: Seq<u8>, qmax: bool, r: FeatureStoreModel, cands: Seq<usize>)
    requires
        q.len() == 96,
        r.bytes_per_feature == 96,
        store_wf(r),
        forall|t: int| 0 <= t < cands.len() ==> #[trigger] cands[t] < r.points.len(),
    ensures
        nearest_two(q, qmax, r, cands).1 <= nearest_two(q, qmax, r, cands).2,
        nearest_two(q, qmax, r, cands).0 == -1 ==> nearest_two(q, qmax, r, cands).1 == u32::MAX,
        (nearest_two(q, qmax, r, cands).0 == -1) <==> (forall|t: int|
            0 <= t < cands.len() ==> !same_type(r, qmax, #[trigger] cands[t] as int)),
        nearest_two(q, qmax, r, cands).0 != -1 ==> (exists|t: int|
            0 <= t < cands.len() && #[trigger] cands[t] == nearest_two(q, qmax, r, cands).0),
        nearest_two(q, qmax, r, cands).0 != -1 ==> same_type(r, qmax, nearest_two(q, qmax, r, cands).0)
            && distance_to(q, r, nearest_two(q, qmax, r, cands).0) == nearest_two(q, qmax, r, cands).1,
        forall|t: int|
            0 <= t < cands.len() && same_type(r, qmax, #[trigger] cands[t] as int) ==> distance_to(q, r, cands[t] as int)
                >= nearest_two(q, qmax, r, cands).1,
        forall|t1: int, t2: int|
            0 <= t1 < t2 < cands.len() && same_type(r, qmax, #[trigger] cands[t1] as int) && same_type(
                r,
                qmax,
                #[trigger] cands[t2] as int,
            ) ==> distance_to(q, r, cands[t1] as int) >= nearest_two(q, qmax, r, cands).2 || distance_to(
                q,
                r,
                cands[t2] as int,
            ) >= nearest_two(q, qmax, r, cands).2,
    decreases cands.len(),
{
    if cands.len() > 0 {
        let pre = cands.drop_last();
        let n = cands.len() - 1;
        lemma_nearest_two_is_minimum(q, qmax, r, pre);
        lemma_nearest_two_bounds(q, qmax, r, pre);
        let j = cands.last() as int;
        assert(cands[n] as int == j);
        lemma_hamming_prefix_bound(q, descriptor_of(r, j), 96);
        assert(descriptor_of(r, j).len() == 96) by {
            lemma_row_in_bounds(j, r.points.len() as int, 96);
        }
        assert forall|t: int| 0 <= t < pre.len() implies #[trigger] pre[t] == cands[t] by {}
        let (b, f, s) = nearest_two(q, qmax, r, pre);
        let (b2, f2, s2) = nearest_two(q, qmax, r, cands);
        let d = distance_to(q, r, j);
        assert(d <= 768);
        assert forall|t: int|
            0 <= t < cands.len() && same_type(r, qmax, #[trigger] cands[t] as int) implies distance_to(q, r, cands[t] as int)
                >= f2 by {
            if t < n {
                assert(pre[t] == cands[t]);
            }
        }
        assert forall|t1: int, t2: int|
            0 <= t1 < t2 < cands.len() && same_type(r, qmax, #[trigger] cands[t1] as int) && same_type(
                r,
                qmax,
                #[trigger] cands[t2] as int,
            ) implies distance_to(q, r, cands[t1] as int) >= s2 || distance_to(q, r, cands[t2] as int) >= s2 by {
            assert(pre[t1] == cands[t1]);
            if t2 < n {
                assert(pre[t2] == cands[t2]);
            }
        }
        if b2 != -1 {
            if same_type(r, qmax, j) && d < f {
                assert(cands[n] == b2);
            } else {
                let t = choose|t: int| 0 <= t < pre.len() && #[trigger] pre[t] == b;
                assert(cands[t] == b2);
            }
        }
        if b2 == -1 {
            assert forall|t: int| 0 <= t < cands.len() implies !same_type(r, qmax, #[trigger] cands[t] as int) by {
                if t < n {
                    assert(pre[t] == cands[t]);
                }
            }
        }
    }
}

/// Scans the reference features at the positions listed in `cands`.
fn scan_candidates(
    query: &FeatureStore,
    i: usize,
    reference: &FeatureStore,
    cands: &[usize],
) -> (r: NearestTwo)
    requires
        store_wf(query@),
        store_wf(reference@),
        query@.bytes_per_feature == 96,
        reference@.bytes_per_feature == 96,
        i < query@.points.len(),
        reference@.points.len() <= i32::MAX,
        forall|t: int| 0 <= t < cands@.len() ==> #[trigger] cands@[t] < reference@.points.len(),
    ensures
        (r.best_index as int, r.first as int, r.second as int) == nearest_two(
            descriptor_of(query@, i as int),
            query@.points[i as int].maxima,
            reference@,
            cands@,
        ),
{
    let ghost q = descriptor_of(query@, i as int);
    let qmax = query.point(i).maxima;
    let qd = query.descriptor(i);
    let mut first: u32 = u32::MAX;
    let mut second: u32 = u32::MAX;
    let mut best_index: i32 = -1;
    let dlen = reference.descriptors.len();
    let mut t: usize = 0;
    while t < cands.len()
        invariant
            dlen == reference@.descriptors.len(),
            store_wf(reference@),
            reference@.bytes_per_feature == 96,
            reference@.points.len() <= i32::MAX,
            qd@ == q,
            q.len() == 96,
            qmax == query@.points[i as int].maxima,
            forall|t: int| 0 <= t < cands@.len() ==> #[trigger] cands@[t] < reference@.points.len(),
            t <= cands@.len(),
            (best_index as int, first as int, second as int) == nearest_two(q, qmax, reference@, cands@.take(t as int)),
        decreases cands@.len() - t,
    {
        let j = cands[t];
        proof {
            assert(cands@.take(t as int + 1).drop_last() =~= cands@.take(t as int));
            lemma_row_in_bounds(j as int, reference@.points.len() as int, 96);
        }
        if reference.point(j).maxima == qmax {
            let d = hamming_distance_96_at(qd, 0, reference.descriptors.as_slice(), j * 96);
            proof {
                assert(qd@.subrange(0, 96) =~= q);
                assert(reference@.descriptors.subrange(j * 96, j * 96 + 96) == descriptor_of(reference@, j as int));
            }
            if d < first {
                second = first;
                first = d;
                best_index = j as i32;
            } else if d < second {
                second = d;
            }
        }
        t = t + 1;
    }
    proof {
        assert(cands@.take(cands@.len() as int) =~= cands@);
    }
    NearestTwo { best_index, first, second }
}

/// The closest and second-closest reference descriptors to query feature
/// `i`, over every reference of the same extremum type.
pub fn nearest_two_all(query: &FeatureStore, i: usize, reference: &FeatureStore) -> (r: NearestTwo)
    requires
        store_wf(query@),
        store_wf(reference@),
        query@.bytes_per_feature == 96,
        reference@.bytes_per_feature == 96,
        i < query@.points.len(),
        reference@.points.len() <= i32::MAX,
    ensures
        (r.best_index as int, r.first as int, r.second as int) == nearest_two(
            descriptor_of(query@, i as int),
            query@.points[i as int].maxima,
            reference@,
            all_positions(reference@.points.len()),
        ),
{
    let n = reference.num_features();
    let mut cands: Vec<usize> = Vec::new();
    let mut j: usize = 0;
    while j < n
        invariant
            n == reference@.points.len(),
            j <= n,
            cands@ == all_positions(j as nat),
        decreases n - j,
    {
        cands.push(j);
        j = j + 1;
        proof {
            assert(cands@ =~= all_positions(j as nat));
        }
    }
    scan_candidates(query, i, reference, cands.as_slice())
}

/// The closest and second-closest reference descriptors to query feature
/// `i`, over the references listed in `candidates` (as an index returns
/// them) that have the query's extremum type.
pub fn nearest_two_among(query: &FeatureStore, i: usize, reference: &FeatureStore, candidates: &[usize]) -> (r: NearestTwo)
    requires
        store_wf(query@),
        store_wf(reference@),
        query@.bytes_per_feature == 96,
        reference@.bytes_per_feature == 96,
        i < query@.points.len(),
        reference@.points.len() <= i32::MAX,
        forall|t: int| 0 <= t < candidates@.len() ==> #[trigger] candidates@[t] < reference@.points.len(),
    ensures
        (r.best_index as int, r.first as int, r.second as int) == nearest_two(
            descriptor_of(query@, i as int),
            query@.points[i as int].maxima,
            reference@,
            candidates@,
        ),
{
    scan_candidates(query, i, reference, candidates)
}

} // verus!
