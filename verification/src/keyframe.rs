//! Per-frame container: the frame's feature points and descriptors and,
//! once built, the hierarchical index over its descriptors.

use vstd::prelude::*;
use crate::clustering::{descs, seed_after_build, BhcModel, BinaryHierarchicalClustering, KpmError};
use crate::hough::FeaturePoint;
use crate::matcher::{descriptor_of, store_wf, FeatureStore, FeatureStoreModel};

verus! {

/// Index settings used for keyframes: hypotheses per split.
pub const KEYFRAME_BUILD_INDEX_NUM_HYPOTHESES: usize = 128;

/// Index settings used for keyframes: children per node.
pub const KEYFRAME_BUILD_INDEX_NUM_CENTERS: usize = 8;

/// Index settings used for keyframes: extra nodes explored per query.
pub const KEYFRAME_BUILD_INDEX_MAX_NODES_TO_POP: usize = 8;

/// Index settings used for keyframes: smallest node that is split.
pub const KEYFRAME_BUILD_INDEX_MIN_FEATURES_PER_NODE: usize = 16;

/// Features of one frame and, once built, their index.
pub struct Keyframe {
    /// Feature points and 96-byte descriptors.
    pub store: FeatureStore,
    /// Width of the source image.
    pub width: i32,
    /// Height of the source image.
    pub height: i32,
    index: Option<BinaryHierarchicalClustering>,
}

/// The store, the image size and the index of a keyframe.
pub struct KeyframeModel {
    pub store: FeatureStoreModel,
    pub width: i32,
    pub height: i32,
    pub index: Option<BhcModel>,
}

impl View for Keyframe {
    type V = KeyframeModel;

    closed spec fn view(&self) -> KeyframeModel {
        KeyframeModel {
            store: self.store@,
            width: self.width,
            height: self.height,
            index: match self.index {
                Some(b) => Some(b@),
                None => None,
            },
        }
    }
}

/// The descriptors of a store, one sequence per feature.
pub open spec fn store_descs(m: FeatureStoreModel) -> Seq<Seq<u8>> {
    Seq::new(m.points.len(), |i: int| descriptor_of(m, i))
}

/// The index built over `d` with the keyframe settings.
pub open spec fn keyframe_index(d: Seq<Seq<u8>>) -> BhcModel {
    BhcModel {
        built: true,
        num_centers: KEYFRAME_BUILD_INDEX_NUM_CENTERS as nat,
        num_hypotheses: KEYFRAME_BUILD_INDEX_NUM_HYPOTHESES as nat,
        min_features_per_leaf: KEYFRAME_BUILD_INDEX_MIN_FEATURES_PER_NODE as nat,
        max_nodes_to_pop: KEYFRAME_BUILD_INDEX_MAX_NODES_TO_POP as nat,
        indexed: d,
        rand_seed: seed_after_build(
            d,
            KEYFRAME_BUILD_INDEX_NUM_CENTERS as nat,
            KEYFRAME_BUILD_INDEX_MIN_FEATURES_PER_NODE as nat,
            KEYFRAME_BUILD_INDEX_NUM_HYPOTHESES as nat,
            1234,
        ),
    }
}

fn descriptor_array(store: &FeatureStore, i: usize) -> (r: [u8; 96])
    requires
        store_wf(store@),
        store@.bytes_per_feature == 96,
        i < store@.points.len(),
    ensures
        r@ == descriptor_of(store@, i as int),
{
    let d = store.descriptor(i);
    let mut a = [0u8; 96];
    let mut k: usize = 0;
    while k < 96
        invariant
            d@.len() == 96,
            k <= 96,
            forall|t: int| 0 <= t < k ==> #[trigger] a@[t] == d@[t],
        decreases 96 - k,
    {
        a[k] = d[k];
        k = k + 1;
    }
    assert(a@ =~= d@);
    a
}

impl Keyframe {
    /// The store holds 96-byte descriptors and a present index is well formed.
    pub closed spec fn wf(&self) -> bool {
        &&& store_wf(self.store@)
        &&& self.store@.bytes_per_feature == 96
        &&& match self.index {
            Some(b) => b.wf(),
            None => true,
        }
    }

    /// The index is the tree built over `fs` by a fresh clustering with
    /// the keyframe settings.
    pub closed spec fn index_built_over(&self, fs: Seq<Seq<u8>>) -> bool {
        match self.index {
            Some(b) => b.tree_built_over(fs, 1234),
            None => false,
        }
    }

    /// An empty keyframe for a `width x height` image, without index.
    pub fn new(width: i32, height: i32) -> (r: Result<Self, KpmError>)
        ensures
            r matches Ok(k) && k.wf() && k@.width == width && k@.height == height && k@.store.points.len() == 0
                && k@.store.bytes_per_feature == 96 && k@.index is None,
    {
        let store = match FeatureStore::new(96) {
            Ok(s) => s,
            Err(e) => {
                return Err(e);
            },
        };
        Ok(Keyframe { store, width, height, index: None })
    }

    /// Builds the index over the stored descriptors with the keyframe
    /// settings, replacing any earlier one. An empty store is refused and
    /// leaves the keyframe unchanged.
    pub fn build_index(&mut self) -> (r: Result<(), KpmError>)
        requires
            old(self).wf(),
            old(self)@.store.points.len() * 768 < u64::MAX,
            2 * old(self)@.store.points.len() < usize::MAX,
        ensures
            final(self).wf(),
            old(self)@.store.points.len() == 0 ==> (r matches Err(KpmError::InvalidInput(_)) && final(self)@
                == old(self)@),
            old(self)@.store.points.len() > 0 ==> (r is Ok && final(self)@ == (KeyframeModel {
                index: Some(keyframe_index(store_descs(old(self)@.store))),
                ..old(self)@
            }) && final(self).index_built_over(store_descs(old(self)@.store))),
    {
        let mut bhc = match BinaryHierarchicalClustering::new() {
            Ok(b) => b,
            Err(e) => {
                return Err(e);
            },
        };
        match bhc.set_num_hypotheses(KEYFRAME_BUILD_INDEX_NUM_HYPOTHESES) {
            Ok(()) => {},
            Err(e) => {
                return Err(e);
            },
        }
        match bhc.set_num_centers(KEYFRAME_BUILD_INDEX_NUM_CENTERS) {
            Ok(()) => {},
            Err(e) => {
                return Err(e);
            },
        }
        bhc.set_max_nodes_to_pop(KEYFRAME_BUILD_INDEX_MAX_NODES_TO_POP);
        match bhc.set_min_features_per_leaf(KEYFRAME_BUILD_INDEX_MIN_FEATURES_PER_NODE) {
            Ok(()) => {},
            Err(e) => {
                return Err(e);
            },
        }
        let n = self.store.num_features();
        let mut arrays: Vec<[u8; 96]> = Vec::new();
        let mut i: usize = 0;
        while i < n
            invariant
                n == self.store@.points.len(),
                store_wf(self.store@),
                self.store@.bytes_per_feature == 96,
                i <= n,
                arrays@.len() == i,
                forall|t: int| 0 <= t < i ==> (#[trigger] arrays@[t])@ == descriptor_of(self.store@, t),
            decreases n - i,
        {
            arrays.push(descriptor_array(&self.store, i));
            i = i + 1;
        }
        let mut refs: Vec<&[u8; 96]> = Vec::new();
        let mut j: usize = 0;
        while j < n
            invariant
                arrays@.len() == n,
                j <= n,
                refs@.len() == j,
                forall|t: int| 0 <= t < j ==> *#[trigger] refs@[t] == arrays@[t],
            decreases n - j,
        {
            refs.push(&arrays[j]);
            j = j + 1;
        }
        let ghost before = bhc@;
        match bhc.build(refs.as_slice()) {
            Ok(()) => {},
            Err(e) => {
                return Err(e);
            },
        }
        proof {
            assert(descs(refs@) =~= store_descs(self.store@));
            assert(bhc@ == keyframe_index(store_descs(self.store@)));
        }
        self.index = Some(bhc);
        Ok(())
    }

    /// The index, once [`Keyframe::build_index`] has succeeded.
    pub fn index(&self) -> (r: Option<&BinaryHierarchicalClustering>)
        ensures
            match r {
                Some(b) => self@.index == Some(b@) && (self.wf() ==> b.wf()),
                None => self@.index is None,
            },
    {
        match &self.index {
            Some(b) => Some(b),
            None => None,
        }
    }
}

/// Stores detected features in `keyframe`: point `i` with the `i`-th
/// 96-byte descriptor of `descriptors` (descriptors laid back to back, as
/// the descriptor extraction writes them; bytes past the last point's
/// descriptor are ignored).
pub fn find_features(keyframe: &mut Keyframe, points: &[FeaturePoint], descriptors: &[u8]) -> (r: Result<(), KpmError>)
    requires
        old(keyframe).wf(),
        points@.len() * 96 <= descriptors@.len(),
    ensures
        final(keyframe).wf(),
        r is Ok,
        final(keyframe)@ == (KeyframeModel {
            store: FeatureStoreModel {
                points: old(keyframe)@.store.points + points@,
                descriptors: old(keyframe)@.store.descriptors + descriptors@.subrange(0, points@.len() * 96 as int),
                bytes_per_feature: 96,
            },
            ..old(keyframe)@
        }),
{
    let n = points.len();
    let total = descriptors.len();
    let mut i: usize = 0;
    while i < n
        invariant
            i <= n,
            n == points@.len(),
            total == descriptors@.len(),
            n * 96 <= descriptors@.len(),
            keyframe.wf(),
            keyframe@ == (KeyframeModel {
                store: FeatureStoreModel {
                    points: old(keyframe)@.store.points + points@.subrange(0, i as int),
                    descriptors: old(keyframe)@.store.descriptors + descriptors@.subrange(0, i * 96 as int),
                    bytes_per_feature: 96,
                },
                ..old(keyframe)@
            }),
        decreases n - i,
    {
        proof {
            assert(i * 96 + 96 <= n * 96) by (nonlinear_arith)
                requires
                    i < n,
            ;
        }
        let start = i * 96;
        let desc = vstd::slice::slice_subrange(descriptors, start, start + 96);
        match keyframe.store.add(points[i], desc) {
            Ok(()) => {},
            Err(e) => {
                return Err(e);
            },
        }
        i = i + 1;
        proof {
            let ob = old(keyframe)@.store;
            assert(points@.subrange(0, i as int) =~= points@.subrange(0, i - 1).push(points@[i - 1]));
            assert(descriptors@.subrange(0, i * 96 as int) =~= descriptors@.subrange(0, (i - 1) * 96 as int) + desc@);
            assert(ob.points + points@.subrange(0, i as int) =~= (ob.points + points@.subrange(0, i - 1)).push(
                points@[i - 1],
            ));
            assert(ob.descriptors + descriptors@.subrange(0, i * 96 as int) =~= (ob.descriptors
                + descriptors@.subrange(0, (i - 1) * 96 as int)) + desc@);
        }
    }
    proof {
        assert(points@.subrange(0, n as int) =~= points@);
    }
    Ok(())
}

} // verus!
