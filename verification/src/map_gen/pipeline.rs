//! Which pipeline steps a tile computation runs, and the small per-tile
//! caches of expensive intermediate artifacts, keyed by tile revision and
//! the exact bits of the parameters the artifact depends on.

use vstd::prelude::*;
use std::collections::VecDeque;
use std::sync::Arc;

verus! {

/// The feature layers that a tile computation produces; each flag asks for
/// one layer to be (re)computed.
#[derive(Clone, Copy)]
pub struct PipelineSteps {
    pub basemap: bool,
    pub contours: bool,
    pub openness: bool,
    pub vegetation: bool,
    pub buildings: bool,
    pub cliffs: bool,
    pub intensity: bool,
    pub water: bool,
    pub streams: bool,
    pub marsh: bool,
}

/// No step at all.
pub open spec fn no_steps() -> PipelineSteps {
    PipelineSteps {
        basemap: false,
        contours: false,
        openness: false,
        vegetation: false,
        buildings: false,
        cliffs: false,
        intensity: false,
        water: false,
        streams: false,
        marsh: false,
    }
}

impl Default for PipelineSteps {
    fn default() -> (steps: Self)
        ensures
            steps == no_steps(),
    {
        PipelineSteps {
            basemap: false,
            contours: false,
            openness: false,
            vegetation: false,
            buildings: false,
            cliffs: false,
            intensity: false,
            water: false,
            streams: false,
            marsh: false,
        }
    }
}

/// How many artifacts each per-tile cache keeps.
pub const CONTOUR_FIELD_CACHE_ENTRIES_PER_TILE: usize = 2;
pub const TERRAIN_FIT_CACHE_ENTRIES_PER_TILE: usize = 2;
pub const BUILDING_FIT_CACHE_ENTRIES_PER_TILE: usize = 2;
pub const MARSH_HYDROLOGY_CACHE_ENTRIES_PER_TILE: usize = 2;
pub const BUILDING_DETECTION_CACHE_ENTRIES_PER_TILE: usize = 2;

/// A key whose equality can be tested exactly.
pub trait CacheKey: Copy {
    fn same_key(&self, other: &Self) -> (same: bool)
        ensures
            same == (*self == *other),
    ;
}

impl CacheKey for u32 {
    fn same_key(&self, other: &Self) -> (same: bool) {
        *self == *other
    }
}

/// Shares an artifact: `Arc::clone` of std makes a new pointer to the same
/// allocation, so the shared value is the one pointed to.
#[verifier::external_body]
fn share<T>(artifact: &Arc<T>) -> (shared: Arc<T>)
    ensures
        shared == *artifact,
{
    Arc::clone(artifact)
}

/// `p` is the first position whose key is `key`.
pub open spec fn first_match<K, T>(entries: Seq<(K, Arc<T>)>, key: K, p: int) -> bool {
    &&& 0 <= p < entries.len()
    &&& entries[p].0 == key
    &&& forall|q: int| 0 <= q < p ==> (#[trigger] entries[q]).0 != key
}

/// No entry has key `key`.
pub open spec fn no_match<K, T>(entries: Seq<(K, Arc<T>)>, key: K) -> bool {
    forall|q: int| 0 <= q < entries.len() ==> (#[trigger] entries[q]).0 != key
}

/// What a lookup returns and leaves: on a hit the artifact of the first
/// entry with the key, which moves to the back as most recently used; on a
/// miss nothing, and the entries stay.
pub open spec fn lookup_result<K, T>(before: Seq<(K, Arc<T>)>, key: K, after: Seq<(K, Arc<T>)>, found: Option<Arc<T>>) -> bool {
    match found {
        Some(artifact) => exists|p: int| #[trigger] first_match(before, key, p)
            && artifact == before[p].1
            && after == before.remove(p).push(before[p]),
        None => no_match(before, key) && after == before,
    }
}

/// The entries after an insertion: the new entry goes to the back, and a
/// full cache first drops its front, least recently used entry.
pub open spec fn inserted<K, T>(before: Seq<(K, Arc<T>)>, key: K, artifact: Arc<T>, capacity: int) -> Seq<(K, Arc<T>)> {
    if before.len() == capacity {
        before.subrange(1, before.len() as int).push((key, artifact))
    } else {
        before.push((key, artifact))
    }
}

/// Looks `key` up among the entries; a hit moves to the back.
fn lookup<K: CacheKey, T>(entries: &mut VecDeque<(K, Arc<T>)>, key: K) -> (found: Option<Arc<T>>)
    ensures
        lookup_result(old(entries)@, key, final(entries)@, found),
{
    broadcast use vstd::std_specs::vecdeque::group_vec_dequeue_axioms;
    let mut position: usize = 0;
    while position < entries.len()
        invariant
            entries@ == old(entries)@,
            position <= entries@.len(),
            forall|q: int| 0 <= q < position ==> (#[trigger] entries@[q]).0 != key,
        ensures
            entries@ == old(entries)@,
            position <= entries@.len(),
            forall|q: int| 0 <= q < position ==> (#[trigger] entries@[q]).0 != key,
            position < entries@.len() ==> entries@[position as int].0 == key,
        decreases entries@.len() - position,
    {
        if entries[position].0.same_key(&key) {
            break;
        }
        position = position + 1;
    }
    if position == entries.len() {
        return None;
    }
    let ghost before = entries@;
    match entries.remove(position) {
        Some(entry) => {
            let artifact = share(&entry.1);
            entries.push_back(entry);
            proof {
                assert(first_match(before, key, position as int));
            }
            Some(artifact)
        },
        None => None,
    }
}

/// Adds an entry at the back, first dropping the front one when the cache
/// holds `capacity` entries.
fn store<K, T>(entries: &mut VecDeque<(K, Arc<T>)>, key: K, artifact: Arc<T>, capacity: usize)
    requires
        0 < capacity,
        old(entries)@.len() <= capacity,
    ensures
        final(entries)@ == inserted(old(entries)@, key, artifact, capacity as int),
{
    broadcast use vstd::std_specs::vecdeque::group_vec_dequeue_axioms;
    if entries.len() == capacity {
        let _ = entries.pop_front();
    }
    entries.push_back((key, artifact));
}

/// The marsh-hydrology artifacts of a tile, keyed by the bits of the
/// drainage-area threshold they were computed with.
pub struct MarshHydrologyCache<T> {
    entries: VecDeque<(u32, Arc<T>)>,
}

impl<T> MarshHydrologyCache<T> {
    #[verifier::type_invariant]
    spec fn bounded(self) -> bool {
        self.entries@.len() <= MARSH_HYDROLOGY_CACHE_ENTRIES_PER_TILE
    }

    /// The cached entries, least recently used first.
    pub closed spec fn entries(self) -> Seq<(u32, Arc<T>)> {
        self.entries@
    }

    /// An empty cache.
    pub fn new() -> (cache: Self)
        ensures
            cache.entries() == Seq::<(u32, Arc<T>)>::empty(),
    {
        MarshHydrologyCache { entries: VecDeque::new() }
    }

    /// The number of cached artifacts.
    pub fn len(&self) -> (len: usize)
        ensures
            len == self.entries().len(),
            len <= MARSH_HYDROLOGY_CACHE_ENTRIES_PER_TILE,
    {
        broadcast use vstd::std_specs::vecdeque::group_vec_dequeue_axioms;
        proof {
            use_type_invariant(self);
        }
        self.entries.len()
    }

    /// The artifact computed with `drainage_area_bits`, if cached; a hit
    /// becomes the most recently used entry.
    pub fn get(&mut self, drainage_area_bits: u32) -> (found: Option<Arc<T>>)
        ensures
            lookup_result(old(self).entries(), drainage_area_bits, final(self).entries(), found),
    {
        proof {
            use_type_invariant(&*self);
        }
        let mut entries = VecDeque::new();
        std::mem::swap(&mut entries, &mut self.entries);
        let found = lookup(&mut entries, drainage_area_bits);
        self.entries = entries;
        found
    }

    /// Caches `artifact` as the most recently used entry, dropping the least
    /// recently used one when the cache is full.
    pub fn insert(&mut self, drainage_area_bits: u32, artifact: Arc<T>)
        ensures
            final(self).entries() == inserted(old(self).entries(), drainage_area_bits, artifact,
                MARSH_HYDROLOGY_CACHE_ENTRIES_PER_TILE as int),
    {
        proof {
            use_type_invariant(&*self);
        }
        let mut entries = VecDeque::new();
        std::mem::swap(&mut entries, &mut self.entries);
        store(&mut entries, drainage_area_bits, artifact, MARSH_HYDROLOGY_CACHE_ENTRIES_PER_TILE);
        self.entries = entries;
    }
}

/// Identifies a terrain fit: the tile revision and the bits of the slope and
/// curvature fit radii.
#[derive(Clone, Copy, Debug, PartialEq, Eq, Structural)]
pub struct TerrainFitCacheKey {
    pub tile_revision: u64,
    pub slope_radius_bits: u64,
    pub curvature_radius_bits: u64,
}

impl TerrainFitCacheKey {
    /// The key of a fit of tile revision `tile_revision` with the radii of
    /// the given bits.
    pub fn new(tile_revision: u64, slope_radius_bits: u64, curvature_radius_bits: u64) -> (key: Self)
        ensures
            key.tile_revision == tile_revision,
            key.slope_radius_bits == slope_radius_bits,
            key.curvature_radius_bits == curvature_radius_bits,
    {
        TerrainFitCacheKey { tile_revision, slope_radius_bits, curvature_radius_bits }
    }
}

impl CacheKey for TerrainFitCacheKey {
    fn same_key(&self, other: &Self) -> (same: bool) {
        *self == *other
    }
}

/// Identifies a contour field: the tile revision, the bits of the contour
/// interval and the fingerprint of the contour-field parameters.
#[derive(Clone, Copy, Debug, PartialEq, Eq, Structural)]
pub struct ContourFieldCacheKey {
    pub tile_revision: u64,
    pub interval_bits: u32,
    pub contour_field_fingerprint: u64,
}

impl ContourFieldCacheKey {
    /// The key of a contour field of tile revision `tile_revision`.
    pub fn new(tile_revision: u64, interval_bits: u32, contour_field_fingerprint: u64) -> (key: Self)
        ensures
            key.tile_revision == tile_revision,
            key.interval_bits == interval_bits,
            key.contour_field_fingerprint == contour_field_fingerprint,
    {
        ContourFieldCacheKey { tile_revision, interval_bits, contour_field_fingerprint }
    }
}

impl CacheKey for ContourFieldCacheKey {
    fn same_key(&self, other: &Self) -> (same: bool) {
        *self == *other
    }
}

/// Identifies a building surface fit: the tile revision and the exact
/// values (floats by their bits) of every building parameter the fit uses.
/// The classification evidence is 0 when authoritative, 1 when supporting
/// and 2 when ignored.
#[derive(Clone, Copy, Debug, PartialEq, Eq, Structural)]
pub struct BuildingFitCacheKey {
    pub tile_revision: u64,
    pub minimum_roof_height_bits: u32,
    pub maximum_roof_height_bits: u32,
    pub plane_fit_radius_bits: u64,
    pub maximum_plane_residual_bits: u32,
    pub ransac_iterations: usize,
    pub ransac_sample_size: usize,
    pub minimum_plane_inliers: usize,
    pub maximum_roof_planes: usize,
    pub maximum_roof_slope_bits: u32,
    pub maximum_candidate_hole_area_bits: u64,
    pub merge_gap_bits: u64,
    pub class_6_evidence: u8,
}

impl BuildingFitCacheKey {
    /// The key of a building fit of tile revision `tile_revision` with the
    /// given parameter values.
    pub fn new(
        tile_revision: u64,
        minimum_roof_height_bits: u32,
        maximum_roof_height_bits: u32,
        plane_fit_radius_bits: u64,
        maximum_plane_residual_bits: u32,
        ransac_iterations: usize,
        ransac_sample_size: usize,
        minimum_plane_inliers: usize,
        maximum_roof_planes: usize,
        maximum_roof_slope_bits: u32,
        maximum_candidate_hole_area_bits: u64,
        merge_gap_bits: u64,
        class_6_evidence: u8,
    ) -> (key: Self)
        ensures
            key == (BuildingFitCacheKey {
                tile_revision,
                minimum_roof_height_bits,
                maximum_roof_height_bits,
                plane_fit_radius_bits,
                maximum_plane_residual_bits,
                ransac_iterations,
                ransac_sample_size,
                minimum_plane_inliers,
                maximum_roof_planes,
                maximum_roof_slope_bits,
                maximum_candidate_hole_area_bits,
                merge_gap_bits,
                class_6_evidence,
            }),
    {
        BuildingFitCacheKey {
            tile_revision,
            minimum_roof_height_bits,
            maximum_roof_height_bits,
            plane_fit_radius_bits,
            maximum_plane_residual_bits,
            ransac_iterations,
            ransac_sample_size,
            minimum_plane_inliers,
            maximum_roof_planes,
            maximum_roof_slope_bits,
            maximum_candidate_hole_area_bits,
            merge_gap_bits,
            class_6_evidence,
        }
    }
}

impl CacheKey for BuildingFitCacheKey {
    fn same_key(&self, other: &Self) -> (same: bool) {
        *self == *other
    }
}

/// The terrain fits of a tile, least recently used first.
pub struct TerrainFitCache<T> {
    entries: VecDeque<(TerrainFitCacheKey, Arc<T>)>,
}

impl<T> TerrainFitCache<T> {
    #[verifier::type_invariant]
    spec fn bounded(self) -> bool {
        self.entries@.len() <= TERRAIN_FIT_CACHE_ENTRIES_PER_TILE
    }

    /// The cached entries, least recently used first.
    pub closed spec fn entries(self) -> Seq<(TerrainFitCacheKey, Arc<T>)> {
        self.entries@
    }

    /// An empty cache.
    pub fn new() -> (cache: Self)
        ensures
            cache.entries() == Seq::<(TerrainFitCacheKey, Arc<T>)>::empty(),
    {
        TerrainFitCache { entries: VecDeque::new() }
    }

    /// The number of cached artifacts.
    pub fn len(&self) -> (len: usize)
        ensures
            len == self.entries().len(),
            len <= TERRAIN_FIT_CACHE_ENTRIES_PER_TILE,
    {
        broadcast use vstd::std_specs::vecdeque::group_vec_dequeue_axioms;
        proof {
            use_type_invariant(self);
        }
        self.entries.len()
    }

    /// The artifact cached under `key`, if any; a hit becomes the most
    /// recently used entry.
    pub fn get(&mut self, key: TerrainFitCacheKey) -> (found: Option<Arc<T>>)
        ensures
            lookup_result(old(self).entries(), key, final(self).entries(), found),
    {
        proof {
            use_type_invariant(&*self);
        }
        let mut entries = VecDeque::new();
        std::mem::swap(&mut entries, &mut self.entries);
        let found = lookup(&mut entries, key);
        self.entries = entries;
        found
    }

    /// Caches `artifact` as the most recently used entry, dropping the least
    /// recently used one when the cache is full.
    pub fn insert(&mut self, key: TerrainFitCacheKey, artifact: Arc<T>)
        ensures
            final(self).entries() == inserted(old(self).entries(), key, artifact, TERRAIN_FIT_CACHE_ENTRIES_PER_TILE as int),
    {
        proof {
            use_type_invariant(&*self);
        }
        let mut entries = VecDeque::new();
        std::mem::swap(&mut entries, &mut self.entries);
        store(&mut entries, key, artifact, TERRAIN_FIT_CACHE_ENTRIES_PER_TILE);
        self.entries = entries;
    }
}

/// The contour fields of a tile, least recently used first.
pub struct ContourFieldCache<T> {
    entries: VecDeque<(ContourFieldCacheKey, Arc<T>)>,
}

impl<T> ContourFieldCache<T> {
    #[verifier::type_invariant]
    spec fn bounded(self) -> bool {
        self.entries@.len() <= CONTOUR_FIELD_CACHE_ENTRIES_PER_TILE
    }

    /// The cached entries, least recently used first.
    pub closed spec fn entries(self) -> Seq<(ContourFieldCacheKey, Arc<T>)> {
        self.entries@
    }

    /// An empty cache.
    pub fn new() -> (cache: Self)
        ensures
            cache.entries() == Seq::<(ContourFieldCacheKey, Arc<T>)>::empty(),
    {
        ContourFieldCache { entries: VecDeque::new() }
    }

    /// The number of cached artifacts.
    pub fn len(&self) -> (len: usize)
        ensures
            len == self.entries().len(),
            len <= CONTOUR_FIELD_CACHE_ENTRIES_PER_TILE,
    {
        broadcast use vstd::std_specs::vecdeque::group_vec_dequeue_axioms;
        proof {
            use_type_invariant(self);
        }
        self.entries.len()
    }

    /// The artifact cached under `key`, if any; a hit becomes the most
    /// recently used entry.
    pub fn get(&mut self, key: ContourFieldCacheKey) -> (found: Option<Arc<T>>)
        ensures
            lookup_result(old(self).entries(), key, final(self).entries(), found),
    {
        proof {
            use_type_invariant(&*self);
        }
        let mut entries = VecDeque::new();
        std::mem::swap(&mut entries, &mut self.entries);
        let found = lookup(&mut entries, key);
        self.entries = entries;
        found
    }

    /// Caches `artifact` as the most recently used entry, dropping the least
    /// recently used one when the cache is full.
    pub fn insert(&mut self, key: ContourFieldCacheKey, artifact: Arc<T>)
        ensures
            final(self).entries() == inserted(old(self).entries(), key, artifact, CONTOUR_FIELD_CACHE_ENTRIES_PER_TILE as int),
    {
        proof {
            use_type_invariant(&*self);
        }
        let mut entries = VecDeque::new();
        std::mem::swap(&mut entries, &mut self.entries);
        store(&mut entries, key, artifact, CONTOUR_FIELD_CACHE_ENTRIES_PER_TILE);
        self.entries = entries;
    }
}

/// The building surface fits of a tile, least recently used first.
pub struct BuildingFitCache<T> {
    entries: VecDeque<(BuildingFitCacheKey, Arc<T>)>,
}

impl<T> BuildingFitCache<T> {
    #[verifier::type_invariant]
    spec fn bounded(self) -> bool {
        self.entries@.len() <= BUILDING_FIT_CACHE_ENTRIES_PER_TILE
    }

    /// The cached entries, least recently used first.
    pub closed spec fn entries(self) -> Seq<(BuildingFitCacheKey, Arc<T>)> {
        self.entries@
    }

    /// An empty cache.
    pub fn new() -> (cache: Self)
        ensures
            cache.entries() == Seq::<(BuildingFitCacheKey, Arc<T>)>::empty(),
    {
        BuildingFitCache { entries: VecDeque::new() }
    }

    /// The number of cached artifacts.
    pub fn len(&self) -> (len: usize)
        ensures
            len == self.entries().len(),
            len <= BUILDING_FIT_CACHE_ENTRIES_PER_TILE,
    {
        broadcast use vstd::std_specs::vecdeque::group_vec_dequeue_axioms;
        proof {
            use_type_invariant(self);
        }
        self.entries.len()
    }

    /// The artifact cached under `key`, if any; a hit becomes the most
    /// recently used entry.
    pub fn get(&mut self, key: BuildingFitCacheKey) -> (found: Option<Arc<T>>)
        ensures
            lookup_result(old(self).entries(), key, final(self).entries(), found),
    {
        proof {
            use_type_invariant(&*self);
        }
        let mut entries = VecDeque::new();
        std::mem::swap(&mut entries, &mut self.entries);
        let found = lookup(&mut entries, key);
        self.entries = entries;
        found
    }

    /// Caches `artifact` as the most recently used entry, dropping the least
    /// recently used one when the cache is full.
    pub fn insert(&mut self, key: BuildingFitCacheKey, artifact: Arc<T>)
        ensures
            final(self).entries() == inserted(old(self).entries(), key, artifact, BUILDING_FIT_CACHE_ENTRIES_PER_TILE as int),
    {
        proof {
            use_type_invariant(&*self);
        }
        let mut entries = VecDeque::new();
        std::mem::swap(&mut entries, &mut self.entries);
        store(&mut entries, key, artifact, BUILDING_FIT_CACHE_ENTRIES_PER_TILE);
        self.entries = entries;
    }
}

/// The building parameters a building detection depends on, exactly: every
/// float by the bits of its value as an `f64`, the classification evidence
/// as 0 (authoritative), 1 (supporting) or 2 (ignored).
#[derive(Clone, Copy, Debug, PartialEq, Eq, Structural)]
pub struct BuildingParameterBits {
    pub enabled: bool,
    pub class_6_evidence: u8,
    pub minimum_roof_height_bits: u64,
    pub maximum_roof_height_bits: u64,
    pub plane_fit_radius_bits: u64,
    pub maximum_plane_residual_bits: u64,
    pub ransac_iterations: usize,
    pub ransac_sample_size: usize,
    pub minimum_plane_inliers: usize,
    pub maximum_roof_planes: usize,
    pub maximum_roof_slope_bits: u64,
    pub minimum_planar_point_fraction_bits: u64,
    pub minimum_building_area_bits: u64,
    pub maximum_candidate_hole_area_bits: u64,
    pub merge_gap_bits: u64,
    pub minimum_rectangularity_or_compactness_bits: u64,
    pub maximum_vegetation_fraction_bits: u64,
    pub confidence_threshold_bits: u64,
    pub regularize_footprints: bool,
    pub regularization_allow_45_degree_edges: bool,
    pub regularization_simplification_tolerance_bits: u64,
    pub regularization_parallel_threshold_bits: u64,
    pub regularization_maximum_boundary_displacement_bits: u64,
    pub regularization_maximum_angle_deviation_bits: u64,
    pub regularization_minimum_supported_edge_fraction_bits: u64,
    pub regularization_minimum_iou_bits: u64,
    pub regularization_diagonal_bias_bits: u64,
}

/// The bits of an `f64` NaN: all exponent bits set and a nonzero fraction.
pub open spec fn is_nan_bits(bits: u64) -> bool {
    bits & 0x7fff_ffff_ffff_ffffu64 > 0x7ff0_0000_0000_0000u64
}

/// The bits of an `f64` with both zeros, `+0.0` and `-0.0`, made `+0.0`.
pub open spec fn canonical_zero(bits: u64) -> u64 {
    if bits & 0x7fff_ffff_ffff_ffffu64 == 0 {
        0
    } else {
        bits
    }
}

/// Whether the `f64` values of two bit patterns compare equal with `==`:
/// neither is NaN, and they are the same value or both are zeros.
pub open spec fn same_float(a: u64, b: u64) -> bool {
    &&& !is_nan_bits(a)
    &&& !is_nan_bits(b)
    &&& (a == b || (a & 0x7fff_ffff_ffff_ffffu64 == 0 && b & 0x7fff_ffff_ffff_ffffu64 == 0))
}

/// Whether two building parameter sets compare equal as parameters: every
/// float by `==` of its value, every other field exactly.
pub open spec fn parameters_equal_as_floats(a: BuildingParameterBits, b: BuildingParameterBits) -> bool {
    &&& a.enabled == b.enabled
    &&& a.class_6_evidence == b.class_6_evidence
    &&& a.ransac_iterations == b.ransac_iterations
    &&& a.ransac_sample_size == b.ransac_sample_size
    &&& a.minimum_plane_inliers == b.minimum_plane_inliers
    &&& a.maximum_roof_planes == b.maximum_roof_planes
    &&& a.regularize_footprints == b.regularize_footprints
    &&& a.regularization_allow_45_degree_edges == b.regularization_allow_45_degree_edges
    &&& same_float(a.minimum_roof_height_bits, b.minimum_roof_height_bits)
    &&& same_float(a.maximum_roof_height_bits, b.maximum_roof_height_bits)
    &&& same_float(a.plane_fit_radius_bits, b.plane_fit_radius_bits)
    &&& same_float(a.maximum_plane_residual_bits, b.maximum_plane_residual_bits)
    &&& same_float(a.maximum_roof_slope_bits, b.maximum_roof_slope_bits)
    &&& same_float(a.minimum_planar_point_fraction_bits, b.minimum_planar_point_fraction_bits)
    &&& same_float(a.minimum_building_area_bits, b.minimum_building_area_bits)
    &&& same_float(a.maximum_candidate_hole_area_bits, b.maximum_candidate_hole_area_bits)
    &&& same_float(a.merge_gap_bits, b.merge_gap_bits)
    &&& same_float(a.minimum_rectangularity_or_compactness_bits, b.minimum_rectangularity_or_compactness_bits)
    &&& same_float(a.maximum_vegetation_fraction_bits, b.maximum_vegetation_fraction_bits)
    &&& same_float(a.confidence_threshold_bits, b.confidence_threshold_bits)
    &&& same_float(a.regularization_simplification_tolerance_bits, b.regularization_simplification_tolerance_bits)
    &&& same_float(a.regularization_parallel_threshold_bits, b.regularization_parallel_threshold_bits)
    &&& same_float(a.regularization_maximum_boundary_displacement_bits, b.regularization_maximum_boundary_displacement_bits)
    &&& same_float(a.regularization_maximum_angle_deviation_bits, b.regularization_maximum_angle_deviation_bits)
    &&& same_float(a.regularization_minimum_supported_edge_fraction_bits, b.regularization_minimum_supported_edge_fraction_bits)
    &&& same_float(a.regularization_minimum_iou_bits, b.regularization_minimum_iou_bits)
    &&& same_float(a.regularization_diagonal_bias_bits, b.regularization_diagonal_bias_bits)
}

/// Whether some float of the parameters is NaN.
pub open spec fn parameters_have_nan(p: BuildingParameterBits) -> bool {
    ||| is_nan_bits(p.minimum_roof_height_bits)
    ||| is_nan_bits(p.maximum_roof_height_bits)
    ||| is_nan_bits(p.plane_fit_radius_bits)
    ||| is_nan_bits(p.maximum_plane_residual_bits)
    ||| is_nan_bits(p.maximum_roof_slope_bits)
    ||| is_nan_bits(p.minimum_planar_point_fraction_bits)
    ||| is_nan_bits(p.minimum_building_area_bits)
    ||| is_nan_bits(p.maximum_candidate_hole_area_bits)
    ||| is_nan_bits(p.merge_gap_bits)
    ||| is_nan_bits(p.minimum_rectangularity_or_compactness_bits)
    ||| is_nan_bits(p.maximum_vegetation_fraction_bits)
    ||| is_nan_bits(p.confidence_threshold_bits)
    ||| is_nan_bits(p.regularization_simplification_tolerance_bits)
    ||| is_nan_bits(p.regularization_parallel_threshold_bits)
    ||| is_nan_bits(p.regularization_maximum_boundary_displacement_bits)
    ||| is_nan_bits(p.regularization_maximum_angle_deviation_bits)
    ||| is_nan_bits(p.regularization_minimum_supported_edge_fraction_bits)
    ||| is_nan_bits(p.regularization_minimum_iou_bits)
    ||| is_nan_bits(p.regularization_diagonal_bias_bits)
}

/// The parameters with every zero float made `+0.0`.
pub open spec fn canonical_parameters(p: BuildingParameterBits) -> BuildingParameterBits {
    BuildingParameterBits {
        enabled: p.enabled,
        class_6_evidence: p.class_6_evidence,
        ransac_iterations: p.ransac_iterations,
        ransac_sample_size: p.ransac_sample_size,
        minimum_plane_inliers: p.minimum_plane_inliers,
        maximum_roof_planes: p.maximum_roof_planes,
        regularize_footprints: p.regularize_footprints,
        regularization_allow_45_degree_edges: p.regularization_allow_45_degree_edges,
        minimum_roof_height_bits: canonical_zero(p.minimum_roof_height_bits),
        maximum_roof_height_bits: canonical_zero(p.maximum_roof_height_bits),
        plane_fit_radius_bits: canonical_zero(p.plane_fit_radius_bits),
        maximum_plane_residual_bits: canonical_zero(p.maximum_plane_residual_bits),
        maximum_roof_slope_bits: canonical_zero(p.maximum_roof_slope_bits),
        minimum_planar_point_fraction_bits: canonical_zero(p.minimum_planar_point_fraction_bits),
        minimum_building_area_bits: canonical_zero(p.minimum_building_area_bits),
        maximum_candidate_hole_area_bits: canonical_zero(p.maximum_candidate_hole_area_bits),
        merge_gap_bits: canonical_zero(p.merge_gap_bits),
        minimum_rectangularity_or_compactness_bits: canonical_zero(p.minimum_rectangularity_or_compactness_bits),
        maximum_vegetation_fraction_bits: canonical_zero(p.maximum_vegetation_fraction_bits),
        confidence_threshold_bits: canonical_zero(p.confidence_threshold_bits),
        regularization_simplification_tolerance_bits: canonical_zero(p.regularization_simplification_tolerance_bits),
        regularization_parallel_threshold_bits: canonical_zero(p.regularization_parallel_threshold_bits),
        regularization_maximum_boundary_displacement_bits: canonical_zero(p.regularization_maximum_boundary_displacement_bits),
        regularization_maximum_angle_deviation_bits: canonical_zero(p.regularization_maximum_angle_deviation_bits),
        regularization_minimum_supported_edge_fraction_bits: canonical_zero(p.regularization_minimum_supported_edge_fraction_bits),
        regularization_minimum_iou_bits: canonical_zero(p.regularization_minimum_iou_bits),
        regularization_diagonal_bias_bits: canonical_zero(p.regularization_diagonal_bias_bits),
    }
}

/// Whether `bits` are those of an `f64` NaN.
fn nan_bits(bits: u64) -> (nan: bool)
    ensures
        nan == is_nan_bits(bits),
{
    bits & 0x7fff_ffff_ffff_ffffu64 > 0x7ff0_0000_0000_0000u64
}

/// The bits with a zero made `+0.0`.
fn zero_made_positive(bits: u64) -> (canonical: u64)
    ensures
        canonical == canonical_zero(bits),
{
    if bits & 0x7fff_ffff_ffff_ffffu64 == 0 {
        0
    } else {
        bits
    }
}

impl BuildingParameterBits {
    /// Whether some float of the parameters is NaN.
    pub fn has_nan(&self) -> (nan: bool)
        ensures
            nan == parameters_have_nan(*self),
    {
        nan_bits(self.minimum_roof_height_bits)
            || nan_bits(self.maximum_roof_height_bits)
            || nan_bits(self.plane_fit_radius_bits)
            || nan_bits(self.maximum_plane_residual_bits)
            || nan_bits(self.maximum_roof_slope_bits)
            || nan_bits(self.minimum_planar_point_fraction_bits)
            || nan_bits(self.minimum_building_area_bits)
            || nan_bits(self.maximum_candidate_hole_area_bits)
            || nan_bits(self.merge_gap_bits)
            || nan_bits(self.minimum_rectangularity_or_compactness_bits)
            || nan_bits(self.maximum_vegetation_fraction_bits)
            || nan_bits(self.confidence_threshold_bits)
            || nan_bits(self.regularization_simplification_tolerance_bits)
            || nan_bits(self.regularization_parallel_threshold_bits)
            || nan_bits(self.regularization_maximum_boundary_displacement_bits)
            || nan_bits(self.regularization_maximum_angle_deviation_bits)
            || nan_bits(self.regularization_minimum_supported_edge_fraction_bits)
            || nan_bits(self.regularization_minimum_iou_bits)
            || nan_bits(self.regularization_diagonal_bias_bits)
    }

    /// The parameters with every zero float made `+0.0`.
    pub fn canonical(&self) -> (canonical: Self)
        ensures
            canonical == canonical_parameters(*self),
    {
        BuildingParameterBits {
            enabled: self.enabled,
            class_6_evidence: self.class_6_evidence,
            ransac_iterations: self.ransac_iterations,
            ransac_sample_size: self.ransac_sample_size,
            minimum_plane_inliers: self.minimum_plane_inliers,
            maximum_roof_planes: self.maximum_roof_planes,
            regularize_footprints: self.regularize_footprints,
            regularization_allow_45_degree_edges: self.regularization_allow_45_degree_edges,
            minimum_roof_height_bits: zero_made_positive(self.minimum_roof_height_bits),
            maximum_roof_height_bits: zero_made_positive(self.maximum_roof_height_bits),
            plane_fit_radius_bits: zero_made_positive(self.plane_fit_radius_bits),
            maximum_plane_residual_bits: zero_made_positive(self.maximum_plane_residual_bits),
            maximum_roof_slope_bits: zero_made_positive(self.maximum_roof_slope_bits),
            minimum_planar_point_fraction_bits: zero_made_positive(self.minimum_planar_point_fraction_bits),
            minimum_building_area_bits: zero_made_positive(self.minimum_building_area_bits),
            maximum_candidate_hole_area_bits: zero_made_positive(self.maximum_candidate_hole_area_bits),
            merge_gap_bits: zero_made_positive(self.merge_gap_bits),
            minimum_rectangularity_or_compactness_bits: zero_made_positive(self.minimum_rectangularity_or_compactness_bits),
            maximum_vegetation_fraction_bits: zero_made_positive(self.maximum_vegetation_fraction_bits),
            confidence_threshold_bits: zero_made_positive(self.confidence_threshold_bits),
            regularization_simplification_tolerance_bits: zero_made_positive(self.regularization_simplification_tolerance_bits),
            regularization_parallel_threshold_bits: zero_made_positive(self.regularization_parallel_threshold_bits),
            regularization_maximum_boundary_displacement_bits: zero_made_positive(self.regularization_maximum_boundary_displacement_bits),
            regularization_maximum_angle_deviation_bits: zero_made_positive(self.regularization_maximum_angle_deviation_bits),
            regularization_minimum_supported_edge_fraction_bits: zero_made_positive(self.regularization_minimum_supported_edge_fraction_bits),
            regularization_minimum_iou_bits: zero_made_positive(self.regularization_minimum_iou_bits),
            regularization_diagonal_bias_bits: zero_made_positive(self.regularization_diagonal_bias_bits),
        }
    }
}

/// Two float bit patterns compare equal with `==` exactly when the second
/// is no NaN and both agree once zeros are made `+0.0`.
proof fn lemma_same_float(a: u64, b: u64)
    by (bit_vector)
    ensures
        same_float(a, b) == (!is_nan_bits(b) && canonical_zero(a) == canonical_zero(b)),
{
}

/// Law: a cached detection whose parameters are `a` matches a request with
/// parameters `b` exactly when the two compare equal as parameters, floats
/// by `==`: the request holds no NaN and the two agree once zeros are made
/// `+0.0`.
pub proof fn lemma_detection_parameters_match(a: BuildingParameterBits, b: BuildingParameterBits)
    ensures
        parameters_equal_as_floats(a, b) == (!parameters_have_nan(b) && canonical_parameters(a)
            == canonical_parameters(b)),
{
    lemma_same_float(a.minimum_roof_height_bits, b.minimum_roof_height_bits);
    lemma_same_float(a.maximum_roof_height_bits, b.maximum_roof_height_bits);
    lemma_same_float(a.plane_fit_radius_bits, b.plane_fit_radius_bits);
    lemma_same_float(a.maximum_plane_residual_bits, b.maximum_plane_residual_bits);
    lemma_same_float(a.maximum_roof_slope_bits, b.maximum_roof_slope_bits);
    lemma_same_float(a.minimum_planar_point_fraction_bits, b.minimum_planar_point_fraction_bits);
    lemma_same_float(a.minimum_building_area_bits, b.minimum_building_area_bits);
    lemma_same_float(a.maximum_candidate_hole_area_bits, b.maximum_candidate_hole_area_bits);
    lemma_same_float(a.merge_gap_bits, b.merge_gap_bits);
    lemma_same_float(a.minimum_rectangularity_or_compactness_bits, b.minimum_rectangularity_or_compactness_bits);
    lemma_same_float(a.maximum_vegetation_fraction_bits, b.maximum_vegetation_fraction_bits);
    lemma_same_float(a.confidence_threshold_bits, b.confidence_threshold_bits);
    lemma_same_float(a.regularization_simplification_tolerance_bits, b.regularization_simplification_tolerance_bits);
    lemma_same_float(a.regularization_parallel_threshold_bits, b.regularization_parallel_threshold_bits);
    lemma_same_float(a.regularization_maximum_boundary_displacement_bits, b.regularization_maximum_boundary_displacement_bits);
    lemma_same_float(a.regularization_maximum_angle_deviation_bits, b.regularization_maximum_angle_deviation_bits);
    lemma_same_float(a.regularization_minimum_supported_edge_fraction_bits, b.regularization_minimum_supported_edge_fraction_bits);
    lemma_same_float(a.regularization_minimum_iou_bits, b.regularization_minimum_iou_bits);
    lemma_same_float(a.regularization_diagonal_bias_bits, b.regularization_diagonal_bias_bits);
}

/// Identifies a building detection: the tile revision and the building
/// parameters it was computed with, zeros made `+0.0`.
#[derive(Clone, Copy, Debug, PartialEq, Eq, Structural)]
pub struct BuildingDetectionCacheKey {
    pub tile_revision: u64,
    pub parameters: BuildingParameterBits,
}

impl CacheKey for BuildingDetectionCacheKey {
    fn same_key(&self, other: &Self) -> (same: bool) {
        *self == *other
    }
}

/// The building detections of a tile, least recently used first.
pub struct BuildingDetectionCache<T> {
    entries: VecDeque<(BuildingDetectionCacheKey, Arc<T>)>,
}

impl<T> BuildingDetectionCache<T> {
    #[verifier::type_invariant]
    spec fn bounded(self) -> bool {
        self.entries@.len() <= BUILDING_DETECTION_CACHE_ENTRIES_PER_TILE
    }

    /// The cached entries, least recently used first.
    pub closed spec fn entries(self) -> Seq<(BuildingDetectionCacheKey, Arc<T>)> {
        self.entries@
    }

    /// An empty cache.
    pub fn new() -> (cache: Self)
        ensures
            cache.entries() == Seq::<(BuildingDetectionCacheKey, Arc<T>)>::empty(),
    {
        BuildingDetectionCache { entries: VecDeque::new() }
    }

    /// The number of cached artifacts.
    pub fn len(&self) -> (len: usize)
        ensures
            len == self.entries().len(),
            len <= BUILDING_DETECTION_CACHE_ENTRIES_PER_TILE,
    {
        broadcast use vstd::std_specs::vecdeque::group_vec_dequeue_axioms;
        proof {
            use_type_invariant(self);
        }
        self.entries.len()
    }

    /// The detection of tile revision `revision` with parameters `params`,
    /// if cached; parameters match when they compare equal, floats by `==`,
    /// so a request holding a NaN never hits. A hit becomes the most
    /// recently used entry.
    pub fn get(&mut self, revision: u64, params: &BuildingParameterBits) -> (found: Option<Arc<T>>)
        ensures
            parameters_have_nan(*params) ==> found is None && final(self).entries() == old(self).entries(),
            !parameters_have_nan(*params) ==> lookup_result(
                old(self).entries(),
                BuildingDetectionCacheKey { tile_revision: revision, parameters: canonical_parameters(*params) },
                final(self).entries(),
                found,
            ),
    {
        proof {
            use_type_invariant(&*self);
        }
        if params.has_nan() {
            return None;
        }
        let key = BuildingDetectionCacheKey { tile_revision: revision, parameters: params.canonical() };
        let mut entries = VecDeque::new();
        std::mem::swap(&mut entries, &mut self.entries);
        let found = lookup(&mut entries, key);
        self.entries = entries;
        found
    }

    /// Caches `artifact` as the most recently used entry, dropping the least
    /// recently used one when the cache is full.
    pub fn insert(&mut self, revision: u64, params: BuildingParameterBits, artifact: Arc<T>)
        ensures
            final(self).entries() == inserted(
                old(self).entries(),
                BuildingDetectionCacheKey { tile_revision: revision, parameters: canonical_parameters(params) },
                artifact,
                BUILDING_DETECTION_CACHE_ENTRIES_PER_TILE as int,
            ),
    {
        proof {
            use_type_invariant(&*self);
        }
        let key = BuildingDetectionCacheKey { tile_revision: revision, parameters: params.canonical() };
        let mut entries = VecDeque::new();
        std::mem::swap(&mut entries, &mut self.entries);
        store(&mut entries, key, artifact, BUILDING_DETECTION_CACHE_ENTRIES_PER_TILE);
        self.entries = entries;
    }
}

/// Law: right after an artifact is cached under a key that no entry held,
/// looking the key up returns that artifact.
pub proof fn lemma_lookup_after_insert<K, T>(
    before: Seq<(K, Arc<T>)>,
    key: K,
    artifact: Arc<T>,
    capacity: int,
    after: Seq<(K, Arc<T>)>,
    found: Option<Arc<T>>,
)
    requires
        0 < capacity,
        before.len() <= capacity,
        no_match(before, key),
        lookup_result(inserted(before, key, artifact, capacity), key, after, found),
    ensures
        found == Some(artifact),
{
    let cached = inserted(before, key, artifact, capacity);
    let last = cached.len() - 1;
    assert(cached[last] == (key, artifact));
    assert forall|q: int| 0 <= q < last implies (#[trigger] cached[q]).0 != key by {
        if before.len() == capacity {
            assert(cached[q] == before[q + 1]);
        } else {
            assert(cached[q] == before[q]);
        }
    }
    assert(first_match(cached, key, last));
    match found {
        Some(a) => {
            let p = choose|p: int| #[trigger] first_match(cached, key, p) && a == cached[p].1
                && after == cached.remove(p).push(cached[p]);
            if p < last {
                assert(cached[p].0 != key);
            }
        },
        None => {
            assert(cached[last].0 == key);
        },
    }
}

/// Law: a lookup neither adds nor drops an entry.
pub proof fn lemma_lookup_keeps_entries<K, T>(
    before: Seq<(K, Arc<T>)>,
    key: K,
    after: Seq<(K, Arc<T>)>,
    found: Option<Arc<T>>,
)
    requires
        lookup_result(before, key, after, found),
    ensures
        after.len() == before.len(),
        after.to_multiset() == before.to_multiset(),
{
    match found {
        Some(a) => {
            let p = choose|p: int| #[trigger] first_match(before, key, p) && a == before[p].1
                && after == before.remove(p).push(before[p]);
            let rest = before.remove(p);
            vstd::seq_lib::to_multiset_build(rest, before[p]);
            vstd::seq_lib::to_multiset_remove(before, p);
            vstd::seq_lib::to_multiset_len(before);
            vstd::seq_lib::to_multiset_len(after);
            assert(before.to_multiset().count(before[p]) > 0) by {
                vstd::seq_lib::to_multiset_contains(before, before[p]);
                assert(before[p] == before[p]);
                assert(before.contains(before[p]));
            }
            assert(after.to_multiset() =~= before.to_multiset().remove(before[p]).insert(before[p]));
        },
        None => {},
    }
}

/// Law: a hit becomes the most recently used entry.
pub proof fn lemma_hit_becomes_most_recent<K, T>(
    before: Seq<(K, Arc<T>)>,
    key: K,
    after: Seq<(K, Arc<T>)>,
    artifact: Arc<T>,
)
    requires
        lookup_result(before, key, after, Some(artifact)),
    ensures
        after.len() > 0,
        after.last() == (key, artifact),
{
}

/// Law: an insertion keeps the cache within its capacity and makes the new
/// entry the most recently used.
pub proof fn lemma_insert_stays_bounded<K, T>(before: Seq<(K, Arc<T>)>, key: K, artifact: Arc<T>, capacity: int)
    requires
        0 < capacity,
        before.len() <= capacity,
    ensures
        inserted(before, key, artifact, capacity).len() <= capacity,
        inserted(before, key, artifact, capacity).last() == (key, artifact),
{
}

} // verus!
