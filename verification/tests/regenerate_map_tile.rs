use omapmaker::map_gen::egui_map::regenerate_map_tile::{changed_steps, MapPreviewSection, ParameterChanges, RegenerationScope};
use omapmaker::map_gen::pipeline::PipelineSteps;

fn first_generation_steps(section: MapPreviewSection) -> PipelineSteps {
    changed_steps(None, RegenerationScope::Section(section), Some(section))
}

fn all_sections() -> Vec<MapPreviewSection> {
    vec![
        MapPreviewSection::Contours,
        MapPreviewSection::Openness,
        MapPreviewSection::Vegetation,
        MapPreviewSection::Buildings,
        MapPreviewSection::Cliffs,
        MapPreviewSection::Water,
        MapPreviewSection::Marsh,
        MapPreviewSection::Streams,
        MapPreviewSection::Intensity,
    ]
}

fn any_step(steps: &PipelineSteps) -> bool {
    steps.basemap
        || steps.contours
        || steps.openness
        || steps.vegetation
        || steps.buildings
        || steps.cliffs
        || steps.intensity
        || steps.water
        || steps.streams
        || steps.marsh
}

#[test]
fn preview_sections_do_not_compute_features_before_they_are_reached() {
    let contours = first_generation_steps(MapPreviewSection::Contours);
    assert!(contours.contours);
    assert!(!contours.openness);
    assert!(!contours.vegetation);
    assert!(!contours.buildings);
    assert!(!contours.cliffs);
    assert!(!contours.water);
    assert!(!contours.intensity);

    let openness = first_generation_steps(MapPreviewSection::Openness);
    assert!(openness.openness);
    assert!(!openness.buildings);
    assert!(!openness.cliffs);
    assert!(!openness.water);

    let vegetation = first_generation_steps(MapPreviewSection::Vegetation);
    assert!(vegetation.vegetation);
    assert!(!vegetation.buildings);
    assert!(!vegetation.cliffs);
    assert!(!vegetation.water);

    let buildings = first_generation_steps(MapPreviewSection::Buildings);
    assert!(buildings.buildings);
    assert!(buildings.openness);
    assert!(buildings.vegetation);
    assert!(!buildings.cliffs);
    assert!(!buildings.water);
    assert!(!buildings.streams);
    assert!(!buildings.intensity);

    let water = first_generation_steps(MapPreviewSection::Water);
    assert!(water.water);
    assert!(water.buildings);
    assert!(!water.marsh);
    assert!(!water.streams);

    let marsh = first_generation_steps(MapPreviewSection::Marsh);
    assert!(marsh.marsh);
    assert!(marsh.buildings);
    assert!(!marsh.water);
    assert!(!marsh.streams);

    let streams = first_generation_steps(MapPreviewSection::Streams);
    assert!(streams.streams);
    assert!(!streams.water);
    assert!(!streams.marsh);
}

#[test]
fn changing_cliff_algorithm_regenerates_cliffs() {
    // The default parameters use the polynomial fit; the new ones use the
    // Sobel slope, so the algorithm differs.
    let changes = ParameterChanges { cliff_algorithm: true, ..Default::default() };
    assert!(changed_steps(Some(changes), RegenerationScope::Changed, Some(MapPreviewSection::Cliffs)).cliffs);
}

#[test]
fn polynomial_fit_changes_do_not_regenerate_sobel_cliffs() {
    // Both old and new use the Sobel slope; only the curvature fit radius
    // changed.
    let changes = ParameterChanges { curvature_fit_radius: true, polynomial_fit_cliffs: false, ..Default::default() };
    assert!(!changed_steps(Some(changes), RegenerationScope::Changed, Some(MapPreviewSection::Cliffs)).cliffs);

    // The new parameters switch to the polynomial fit.
    let changes = ParameterChanges {
        curvature_fit_radius: true,
        polynomial_fit_cliffs: true,
        cliff_algorithm: true,
        ..Default::default()
    };
    assert!(changed_steps(Some(changes), RegenerationScope::Changed, Some(MapPreviewSection::Cliffs)).cliffs);
}

#[test]
fn shared_contour_parameters_do_not_compute_cliffs_early() {
    // A changed curvature fit radius changes the contour field too; the
    // default cliff algorithm is the polynomial fit.
    let changes = ParameterChanges {
        curvature_fit_radius: true,
        contour_field: true,
        polynomial_fit_cliffs: true,
        ..Default::default()
    };
    let steps = changed_steps(Some(changes), RegenerationScope::Changed, Some(MapPreviewSection::Contours));
    assert!(steps.contours);
    assert!(!steps.buildings);
    assert!(!steps.cliffs);
}

#[test]
fn marsh_sensitivity_recomputes_only_marsh_and_its_building_exclusion() {
    let changes = ParameterChanges { marsh: true, polynomial_fit_cliffs: true, ..Default::default() };
    let steps = changed_steps(Some(changes), RegenerationScope::Changed, Some(MapPreviewSection::Intensity));
    assert!(steps.marsh);
    assert!(steps.buildings);
    assert!(!steps.water);
    assert!(!steps.streams);
    assert!(!steps.contours);
}

#[test]
fn water_and_stream_parameters_regenerate_independent_sections() {
    let water_changed = ParameterChanges { water: true, polynomial_fit_cliffs: true, ..Default::default() };
    let water_steps = changed_steps(Some(water_changed), RegenerationScope::Changed, Some(MapPreviewSection::Intensity));
    assert!(water_steps.water);
    assert!(water_steps.marsh);
    assert!(!water_steps.streams);

    let streams_changed = ParameterChanges { streams: true, polynomial_fit_cliffs: true, ..Default::default() };
    let stream_steps =
        changed_steps(Some(streams_changed), RegenerationScope::Changed, Some(MapPreviewSection::Intensity));
    assert!(stream_steps.streams);
    assert!(!stream_steps.water);
    assert!(!stream_steps.marsh);

    // The vectorization confidence is a stream parameter.
    let vectorization_changed = ParameterChanges { streams: true, polynomial_fit_cliffs: true, ..Default::default() };
    let vectorization_steps =
        changed_steps(Some(vectorization_changed), RegenerationScope::Changed, Some(MapPreviewSection::Intensity));
    assert!(vectorization_steps.streams);
    assert!(!vectorization_steps.water);
    assert!(!vectorization_steps.marsh);
}

#[test]
fn nothing_runs_before_any_section_is_reached() {
    let changes = ParameterChanges { building: true, interval: true, ..Default::default() };
    for scope in [RegenerationScope::Changed, RegenerationScope::Section(MapPreviewSection::Buildings)] {
        assert!(!any_step(&changed_steps(Some(changes), scope, None)));
        assert!(!any_step(&changed_steps(None, scope, None)));
    }
}

#[test]
fn steps_stay_within_the_reached_section() {
    let changes = ParameterChanges { building: true, interval: true, streams: true, basemap_contour: true, ..Default::default() };
    let steps = changed_steps(Some(changes), RegenerationScope::Changed, Some(MapPreviewSection::Vegetation));
    assert!(steps.contours && steps.basemap && steps.openness && steps.vegetation);
    assert!(!steps.buildings && !steps.cliffs && !steps.water && !steps.marsh && !steps.streams && !steps.intensity);
}

#[test]
fn building_change_regenerates_dependent_layers() {
    let changes = ParameterChanges { geometry_buildings: true, ..Default::default() };
    let steps = changed_steps(Some(changes), RegenerationScope::Changed, Some(MapPreviewSection::Intensity));
    assert!(steps.buildings && steps.openness && steps.vegetation && steps.cliffs);
    assert!(steps.intensity && steps.water && steps.marsh);
    assert!(!steps.streams && !steps.contours && !steps.basemap);
}

#[test]
fn dependent_layer_regenerates_buildings() {
    let changes = ParameterChanges { vegetation_weights: true, ..Default::default() };
    let steps = changed_steps(Some(changes), RegenerationScope::Changed, Some(MapPreviewSection::Buildings));
    assert!(steps.vegetation && steps.buildings);
    assert!(!steps.openness && !steps.cliffs);
}

#[test]
fn unchanged_parameters_plan_nothing() {
    let changes = ParameterChanges { polynomial_fit_cliffs: true, ..Default::default() };
    for section in all_sections() {
        assert!(!any_step(&changed_steps(Some(changes), RegenerationScope::Changed, Some(section))));
        assert!(!any_step(&changed_steps(None, RegenerationScope::Changed, Some(section))));
    }
}

#[test]
fn scale_change_plans_like_a_first_generation() {
    let changes = ParameterChanges { scale: true, building: true, interval: true, ..Default::default() };
    let steps = changed_steps(Some(changes), RegenerationScope::Section(MapPreviewSection::Cliffs), Some(MapPreviewSection::Intensity));
    assert!(steps.cliffs && steps.buildings);
    assert!(!steps.contours && !steps.openness && !steps.water);
}

#[test]
fn requested_reached_section_is_regenerated() {
    let checks: Vec<(MapPreviewSection, fn(&PipelineSteps) -> bool)> = vec![
        (MapPreviewSection::Contours, |s| s.contours && s.basemap),
        (MapPreviewSection::Openness, |s| s.openness),
        (MapPreviewSection::Vegetation, |s| s.vegetation),
        (MapPreviewSection::Buildings, |s| s.buildings),
        (MapPreviewSection::Cliffs, |s| s.cliffs),
        (MapPreviewSection::Water, |s| s.water),
        (MapPreviewSection::Marsh, |s| s.marsh),
        (MapPreviewSection::Streams, |s| s.streams),
        (MapPreviewSection::Intensity, |s| s.intensity),
    ];
    for (section, step) in checks {
        let steps = changed_steps(None, RegenerationScope::Section(section), Some(MapPreviewSection::Intensity));
        assert!(step(&steps));
    }
}

#[test]
fn section_ranks_follow_the_preview_order() {
    let ranks: Vec<u8> = all_sections().into_iter().map(|s| s.rank()).collect();
    assert_eq!(ranks, vec![0, 1, 2, 3, 4, 5, 6, 7, 8]);
}

#[test]
fn default_steps_are_empty() {
    assert!(!any_step(&PipelineSteps::default()));
}
