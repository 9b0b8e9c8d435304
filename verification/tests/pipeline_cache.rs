use omapmaker::map_gen::pipeline::{
    BuildingDetectionCache, BuildingFitCache, BuildingFitCacheKey, BuildingParameterBits, ContourFieldCache, ContourFieldCacheKey, MarshHydrologyCache, TerrainFitCache,
    TerrainFitCacheKey, BUILDING_DETECTION_CACHE_ENTRIES_PER_TILE, CONTOUR_FIELD_CACHE_ENTRIES_PER_TILE,
};
use std::hash::{Hash, Hasher};
use std::sync::Arc;

fn artifact(value: f32) -> Arc<f32> {
    Arc::new(value)
}

#[test]
fn contour_field_cache_hits_are_exact_and_lru_bounded() {
    // Keys of three tile revisions with the same contour parameters.
    let interval_bits = 2.5_f32.to_bits();
    let fingerprint = 0x5eed_u64;
    let keys = [
        ContourFieldCacheKey::new(1, interval_bits, fingerprint),
        ContourFieldCacheKey::new(2, interval_bits, fingerprint),
        ContourFieldCacheKey::new(3, interval_bits, fingerprint),
    ];
    let first = artifact(1.);
    let second = artifact(2.);
    let third = artifact(3.);
    let mut cache = ContourFieldCache::new();
    cache.insert(keys[0], Arc::clone(&first));
    cache.insert(keys[1], Arc::clone(&second));
    let hit = cache.get(keys[0]).unwrap();
    assert!(Arc::ptr_eq(&hit, &first));
    cache.insert(keys[2], Arc::clone(&third));
    assert!(cache.get(keys[1]).is_none());
    assert!(Arc::ptr_eq(&cache.get(keys[0]).unwrap(), &first));
    assert!(Arc::ptr_eq(&cache.get(keys[2]).unwrap(), &third));
    assert_eq!(cache.len(), CONTOUR_FIELD_CACHE_ENTRIES_PER_TILE);
}

#[test]
fn lookup_after_insert_returns_the_inserted_artifact() {
    let mut cache = TerrainFitCache::new();
    let key = TerrainFitCacheKey::new(4, 1.5_f64.to_bits(), 3.0_f64.to_bits());
    assert!(cache.get(key).is_none());
    let fitted = artifact(7.);
    cache.insert(key, Arc::clone(&fitted));
    assert!(Arc::ptr_eq(&cache.get(key).unwrap(), &fitted));
    assert_eq!(cache.len(), 1);
}

#[test]
fn keys_differ_in_any_field() {
    let mut cache = TerrainFitCache::new();
    let key = TerrainFitCacheKey::new(4, 1, 2);
    cache.insert(key, artifact(1.));
    assert!(cache.get(TerrainFitCacheKey::new(5, 1, 2)).is_none());
    assert!(cache.get(TerrainFitCacheKey::new(4, 9, 2)).is_none());
    assert!(cache.get(TerrainFitCacheKey::new(4, 1, 9)).is_none());
    assert!(cache.get(key).is_some());
}

#[test]
fn a_hit_protects_the_entry_from_eviction() {
    let mut cache = MarshHydrologyCache::new();
    cache.insert(10, artifact(10.));
    cache.insert(20, artifact(20.));
    // Using 10 makes 20 the least recently used entry.
    assert_eq!(*cache.get(10).unwrap(), 10.);
    cache.insert(30, artifact(30.));
    assert!(cache.get(20).is_none());
    assert_eq!(*cache.get(10).unwrap(), 10.);
    assert_eq!(*cache.get(30).unwrap(), 30.);
    assert_eq!(cache.len(), 2);
}

#[test]
fn the_cache_never_exceeds_its_capacity() {
    let mut cache = MarshHydrologyCache::new();
    for bits in 0..10_u32 {
        cache.insert(bits, artifact(bits as f32));
        assert!(cache.len() <= 2);
    }
    assert!(cache.get(7).is_none());
    assert!(cache.get(8).is_some());
    assert!(cache.get(9).is_some());
}

#[test]
fn building_fit_keys_compare_every_parameter() {
    let key = BuildingFitCacheKey::new(1, 2, 3, 4, 5, 6, 7, 8, 9, 10, 11, 12, 0);
    let other = BuildingFitCacheKey::new(1, 2, 3, 4, 5, 6, 7, 8, 9, 10, 11, 12, 1);
    let mut cache = BuildingFitCache::new();
    cache.insert(key, artifact(1.));
    assert!(cache.get(other).is_none());
    assert!(cache.get(key).is_some());
    assert_eq!(key.class_6_evidence, 0);
    assert_eq!(key.merge_gap_bits, 12);
}

fn building_parameters() -> BuildingParameterBits {
    BuildingParameterBits {
        enabled: true,
        class_6_evidence: 1,
        minimum_roof_height_bits: 2.5_f64.to_bits(),
        maximum_roof_height_bits: 60.0_f64.to_bits(),
        plane_fit_radius_bits: 3.0_f64.to_bits(),
        maximum_plane_residual_bits: 0.25_f64.to_bits(),
        ransac_iterations: 64,
        ransac_sample_size: 3,
        minimum_plane_inliers: 12,
        maximum_roof_planes: 6,
        maximum_roof_slope_bits: 55.0_f64.to_bits(),
        minimum_planar_point_fraction_bits: 0.6_f64.to_bits(),
        minimum_building_area_bits: 20.0_f64.to_bits(),
        maximum_candidate_hole_area_bits: 4.0_f64.to_bits(),
        merge_gap_bits: 1.0_f64.to_bits(),
        minimum_rectangularity_or_compactness_bits: 0.4_f64.to_bits(),
        maximum_vegetation_fraction_bits: 0.3_f64.to_bits(),
        confidence_threshold_bits: 0.5_f64.to_bits(),
        regularize_footprints: true,
        regularization_allow_45_degree_edges: false,
        regularization_simplification_tolerance_bits: 0.5_f64.to_bits(),
        regularization_parallel_threshold_bits: 10.0_f64.to_bits(),
        regularization_maximum_boundary_displacement_bits: 1.5_f64.to_bits(),
        regularization_maximum_angle_deviation_bits: 15.0_f64.to_bits(),
        regularization_minimum_supported_edge_fraction_bits: 0.5_f64.to_bits(),
        regularization_minimum_iou_bits: 0.8_f64.to_bits(),
        regularization_diagonal_bias_bits: 0.1_f64.to_bits(),
    }
}

#[test]
fn building_detections_are_found_by_revision_and_parameters() {
    let params = building_parameters();
    let mut changed = params;
    changed.regularization_allow_45_degree_edges = true;
    let detected = artifact(6.);
    let mut cache = BuildingDetectionCache::new();
    assert!(cache.get(1, &params).is_none());
    cache.insert(1, params, Arc::clone(&detected));
    assert!(Arc::ptr_eq(&cache.get(1, &params).unwrap(), &detected));
    assert!(cache.get(2, &params).is_none());
    assert!(cache.get(1, &changed).is_none());
    assert_eq!(cache.len(), 1);
}

#[test]
fn building_detections_evict_the_least_recently_used() {
    let params = building_parameters();
    let mut cache = BuildingDetectionCache::new();
    cache.insert(1, params, artifact(1.));
    cache.insert(2, params, artifact(2.));
    // Using revision 1 leaves revision 2 as the least recently used entry.
    assert_eq!(*cache.get(1, &params).unwrap(), 1.);
    cache.insert(3, params, artifact(3.));
    assert!(cache.get(2, &params).is_none());
    assert_eq!(*cache.get(1, &params).unwrap(), 1.);
    assert_eq!(*cache.get(3, &params).unwrap(), 3.);
    assert_eq!(cache.len(), BUILDING_DETECTION_CACHE_ENTRIES_PER_TILE);
}

// The map parameters that the cache keys are built from. The parameter
// types are not part of this library, so the tests carry the fields the
// keys read, and a few they must ignore.
#[derive(Clone)]
struct ContourFieldParameters {
    fidelity_weight: f64,
    slope_epsilon: f64,
    slope_fit_radius_m: f64,
    curvature_fit_radius_m: f64,
}

impl ContourFieldParameters {
    fn fingerprint(&self) -> u64 {
        let mut hasher = std::collections::hash_map::DefaultHasher::new();
        self.fidelity_weight.to_bits().hash(&mut hasher);
        self.slope_epsilon.to_bits().hash(&mut hasher);
        self.slope_fit_radius_m.to_bits().hash(&mut hasher);
        self.curvature_fit_radius_m.to_bits().hash(&mut hasher);
        hasher.finish()
    }
}

#[derive(Clone)]
struct ContourParameters {
    interval: f32,
    form_lines: bool,
    form_line_prune_threshold: f64,
    dot_knoll_area: (f64, f64),
    contour_field: ContourFieldParameters,
}

#[derive(Clone)]
struct BuildingParameters {
    minimum_roof_height_m: f32,
    maximum_roof_height_m: f32,
    plane_fit_radius_m: f64,
    maximum_plane_residual_m: f32,
    ransac_iterations: usize,
    ransac_sample_size: usize,
    minimum_plane_inliers: usize,
    maximum_roof_planes: usize,
    maximum_roof_slope_degrees: f32,
    maximum_candidate_hole_area_m2: f64,
    merge_gap_m: f64,
    class_6_evidence: u8,
    confidence_threshold: f64,
    minimum_building_area_m2: f64,
}

#[derive(Clone)]
struct MapParameters {
    contour: ContourParameters,
    cliff: f64,
    contour_error: f64,
    building: BuildingParameters,
}

impl Default for MapParameters {
    fn default() -> Self {
        MapParameters {
            contour: ContourParameters {
                interval: 5.,
                form_lines: true,
                form_line_prune_threshold: 0.5,
                dot_knoll_area: (20., 150.),
                contour_field: ContourFieldParameters {
                    fidelity_weight: 1.,
                    slope_epsilon: 0.01,
                    slope_fit_radius_m: 3.,
                    curvature_fit_radius_m: 6.,
                },
            },
            cliff: 1.5,
            contour_error: 0.2,
            building: BuildingParameters {
                minimum_roof_height_m: 2.5,
                maximum_roof_height_m: 60.,
                plane_fit_radius_m: 3.,
                maximum_plane_residual_m: 0.25,
                ransac_iterations: 64,
                ransac_sample_size: 3,
                minimum_plane_inliers: 12,
                maximum_roof_planes: 6,
                maximum_roof_slope_degrees: 55.,
                maximum_candidate_hole_area_m2: 4.,
                merge_gap_m: 1.,
                class_6_evidence: 1,
                confidence_threshold: 0.5,
                minimum_building_area_m2: 20.,
            },
        }
    }
}

fn contour_field_key(tile_revision: u64, params: &MapParameters) -> ContourFieldCacheKey {
    ContourFieldCacheKey::new(
        tile_revision,
        params.contour.interval.to_bits(),
        params.contour.contour_field.fingerprint(),
    )
}

fn terrain_fit_key(tile_revision: u64, params: &MapParameters) -> TerrainFitCacheKey {
    TerrainFitCacheKey::new(
        tile_revision,
        params.contour.contour_field.slope_fit_radius_m.to_bits(),
        params.contour.contour_field.curvature_fit_radius_m.to_bits(),
    )
}

fn building_fit_key(tile_revision: u64, params: &BuildingParameters) -> BuildingFitCacheKey {
    BuildingFitCacheKey::new(
        tile_revision,
        params.minimum_roof_height_m.to_bits(),
        params.maximum_roof_height_m.to_bits(),
        params.plane_fit_radius_m.to_bits(),
        params.maximum_plane_residual_m.to_bits(),
        params.ransac_iterations,
        params.ransac_sample_size,
        params.minimum_plane_inliers,
        params.maximum_roof_planes,
        params.maximum_roof_slope_degrees.to_bits(),
        params.maximum_candidate_hole_area_m2.to_bits(),
        params.merge_gap_m.to_bits(),
        params.class_6_evidence,
    )
}

#[test]
fn contour_field_key_ignores_downstream_parameters() {
    let params = MapParameters::default();
    let expected = contour_field_key(7, &params);

    let mut downstream = params.clone();
    downstream.contour.form_lines = !downstream.contour.form_lines;
    downstream.contour.form_line_prune_threshold += 1.;
    downstream.contour.dot_knoll_area.0 += 1.;
    downstream.contour_error += 1.;
    assert_eq!(contour_field_key(7, &downstream), expected);

    let mut field_change = params.clone();
    field_change.contour.contour_field.fidelity_weight += 1.;
    assert_ne!(contour_field_key(7, &field_change), expected);
    let mut interval_change = params.clone();
    interval_change.contour.interval += 1.;
    assert_ne!(contour_field_key(7, &interval_change), expected);
    assert_ne!(contour_field_key(8, &params), expected);
}

#[test]
fn terrain_fit_key_tracks_only_polynomial_fit_inputs() {
    let params = MapParameters::default();
    let expected = terrain_fit_key(7, &params);

    let mut downstream = params.clone();
    downstream.cliff += 1.;
    downstream.contour.interval += 1.;
    downstream.contour.contour_field.slope_epsilon += 1.;
    assert_eq!(terrain_fit_key(7, &downstream), expected);

    let mut slope_radius = params.clone();
    slope_radius.contour.contour_field.slope_fit_radius_m += 1.;
    assert_ne!(terrain_fit_key(7, &slope_radius), expected);

    let mut curvature_radius = params.clone();
    curvature_radius.contour.contour_field.curvature_fit_radius_m += 1.;
    assert_ne!(terrain_fit_key(7, &curvature_radius), expected);
    assert_ne!(terrain_fit_key(8, &params), expected);
}

#[test]
fn building_fit_key_tracks_only_fit_inputs() {
    let params = MapParameters::default();
    let expected = building_fit_key(7, &params.building);

    let mut threshold_change = params.building.clone();
    threshold_change.confidence_threshold += 0.1;
    threshold_change.minimum_building_area_m2 += 10.;
    assert_eq!(building_fit_key(7, &threshold_change), expected);

    let mut residual_change = params.building.clone();
    residual_change.maximum_plane_residual_m += 0.1;
    assert_ne!(building_fit_key(7, &residual_change), expected);

    let mut radius_change = params.building.clone();
    radius_change.plane_fit_radius_m += 0.5;
    assert_ne!(building_fit_key(7, &radius_change), expected);
    assert_ne!(building_fit_key(8, &params.building), expected);
}

#[test]
fn building_detections_compare_parameters_as_floats() {
    let params = building_parameters();
    let mut positive_zero = params;
    positive_zero.merge_gap_bits = 0.0_f64.to_bits();
    let mut negative_zero = params;
    negative_zero.merge_gap_bits = (-0.0_f64).to_bits();
    let mut nan = params;
    nan.merge_gap_bits = f64::NAN.to_bits();

    let mut cache = BuildingDetectionCache::new();
    cache.insert(1, positive_zero, artifact(1.));
    // -0.0 == 0.0, so the other zero hits.
    assert_eq!(*cache.get(1, &negative_zero).unwrap(), 1.);

    // NaN equals nothing, not even itself: a detection cached with a NaN
    // parameter is never found.
    cache.insert(2, nan, artifact(2.));
    assert!(cache.get(2, &nan).is_none());
    assert_eq!(cache.len(), 2);
}
