//! Planning an incremental regeneration of the preview map: from the
//! parameters that changed, the requested scope and the furthest preview
//! section reached, decide which pipeline steps to run again.

use vstd::prelude::*;
use crate::map_gen::pipeline::{no_steps, PipelineSteps};

verus! {

/// The sections of the preview, in the order the preview walks through
/// them.
#[derive(Clone, Copy, Debug, PartialEq, Eq, Structural)]
pub enum MapPreviewSection {
    Contours,
    Openness,
    Vegetation,
    Buildings,
    Cliffs,
    Water,
    Marsh,
    Streams,
    Intensity,
}

/// The position of a section in the preview order.
pub open spec fn section_rank(section: MapPreviewSection) -> nat {
    match section {
        MapPreviewSection::Contours => 0,
        MapPreviewSection::Openness => 1,
        MapPreviewSection::Vegetation => 2,
        MapPreviewSection::Buildings => 3,
        MapPreviewSection::Cliffs => 4,
        MapPreviewSection::Water => 5,
        MapPreviewSection::Marsh => 6,
        MapPreviewSection::Streams => 7,
        MapPreviewSection::Intensity => 8,
    }
}

impl MapPreviewSection {
    /// The position of this section in the preview order.
    pub fn rank(self) -> (rank: u8)
        ensures
            rank == section_rank(self),
    {
        match self {
            MapPreviewSection::Contours => 0,
            MapPreviewSection::Openness => 1,
            MapPreviewSection::Vegetation => 2,
            MapPreviewSection::Buildings => 3,
            MapPreviewSection::Cliffs => 4,
            MapPreviewSection::Water => 5,
            MapPreviewSection::Marsh => 6,
            MapPreviewSection::Streams => 7,
            MapPreviewSection::Intensity => 8,
        }
    }
}

/// What a regeneration must cover beyond the changed parameters.
#[derive(Clone, Copy, Debug, PartialEq, Eq, Structural)]
pub enum RegenerationScope {
    /// Only what the parameter changes call for.
    Changed,
    /// Also everything of one preview section.
    Section(MapPreviewSection),
}

/// Which map parameters differ between the new settings and the previous
/// ones; each flag is one comparison of a parameter with its old value.
#[derive(Clone, Copy, Debug, Default)]
pub struct ParameterChanges {
    pub scale: bool,
    pub intensity_filters: bool,
    pub geometry_intensity: bool,
    pub vegetation_yellow: bool,
    pub geometry_openness: bool,
    pub vegetation_green: bool,
    pub vegetation_weights: bool,
    pub geometry_vegetation: bool,
    pub building: bool,
    pub geometry_buildings: bool,
    /// The new cliff algorithm is the polynomial fit (not a change flag).
    pub polynomial_fit_cliffs: bool,
    pub slope_fit_radius: bool,
    pub curvature_fit_radius: bool,
    pub cliff_algorithm: bool,
    pub cliff: bool,
    pub geometry_cliffs: bool,
    pub collapse: bool,
    pub collapse_amount_small_cliff: bool,
    pub collapse_amount_large_cliff: bool,
    pub collapse_linearity: bool,
    pub water: bool,
    pub geometry_water: bool,
    pub streams: bool,
    pub geometry_streams: bool,
    pub marsh: bool,
    pub geometry_marsh: bool,
    pub basemap_interval: bool,
    pub basemap_contour: bool,
    pub contour_algorithm: bool,
    pub algo_lambda: bool,
    pub algo_steps: bool,
    pub contour_field: bool,
    pub geometry_contours: bool,
    pub form_lines: bool,
    pub form_line_prune_algorithm: bool,
    pub form_line_prune_threshold: bool,
    pub form_line_error_threshold: bool,
    pub form_line_geometry: bool,
    pub interval: bool,
    pub dot_knoll_area_min: bool,
    pub dot_knoll_area_max: bool,
}

/// The steps that the parameter changes call for. A building change also
/// regenerates the layers that buildings take precedence over, and any of
/// those layers regenerates the buildings with it.
pub open spec fn detected_steps(c: ParameterChanges) -> PipelineSteps {
    let buildings_changed = c.building || c.geometry_buildings;
    let polynomial_fit_changed = c.polynomial_fit_cliffs && (c.slope_fit_radius || c.curvature_fit_radius);
    let water = c.water || c.geometry_water || buildings_changed;
    let intensity = c.intensity_filters || c.geometry_intensity || buildings_changed;
    let openness = c.vegetation_yellow || c.geometry_openness || buildings_changed;
    let vegetation = c.vegetation_green || c.vegetation_weights || c.geometry_vegetation || buildings_changed;
    let cliffs = c.cliff_algorithm || c.cliff || c.geometry_cliffs || c.collapse || c.collapse_amount_small_cliff
        || c.collapse_amount_large_cliff || c.collapse_linearity || polynomial_fit_changed || buildings_changed;
    let marsh = c.marsh || c.geometry_marsh || c.water || c.geometry_water || buildings_changed;
    PipelineSteps {
        basemap: c.basemap_interval || c.basemap_contour,
        contours: c.contour_algorithm || c.algo_lambda || c.algo_steps || c.contour_field || c.geometry_contours
            || c.form_lines || c.form_line_prune_algorithm || c.form_line_prune_threshold
            || c.form_line_error_threshold || c.form_line_geometry || c.interval || c.dot_knoll_area_min
            || c.dot_knoll_area_max,
        openness,
        vegetation,
        buildings: buildings_changed || openness || vegetation || cliffs || intensity || water || marsh,
        cliffs,
        intensity,
        water,
        streams: c.streams || c.geometry_streams,
        marsh,
    }
}

/// The steps with everything of the requested section added: a section
/// brings the buildings with it except for streams and contours, and the
/// buildings section brings every layer that buildings take precedence
/// over.
pub open spec fn scoped_steps(s: PipelineSteps, scope: RegenerationScope) -> PipelineSteps {
    match scope {
        RegenerationScope::Changed => s,
        RegenerationScope::Section(section) => match section {
            MapPreviewSection::Openness => PipelineSteps { openness: true, buildings: true, ..s },
            MapPreviewSection::Vegetation => PipelineSteps { vegetation: true, buildings: true, ..s },
            MapPreviewSection::Buildings => PipelineSteps {
                buildings: true,
                openness: true,
                vegetation: true,
                cliffs: true,
                intensity: true,
                water: true,
                marsh: true,
                ..s
            },
            MapPreviewSection::Cliffs => PipelineSteps { cliffs: true, buildings: true, ..s },
            MapPreviewSection::Water => PipelineSteps { water: true, buildings: true, ..s },
            MapPreviewSection::Marsh => PipelineSteps { marsh: true, buildings: true, ..s },
            MapPreviewSection::Streams => PipelineSteps { streams: true, ..s },
            MapPreviewSection::Intensity => PipelineSteps { intensity: true, buildings: true, ..s },
            MapPreviewSection::Contours => PipelineSteps { contours: true, basemap: true, ..s },
        },
    }
}

/// The steps restricted to the sections the preview has reached: nothing
/// when no section is reached; otherwise each step only if its section is
/// at or before the reached one (basemap goes with contours).
pub open spec fn limited_steps(s: PipelineSteps, reached: Option<MapPreviewSection>) -> PipelineSteps {
    match reached {
        None => no_steps(),
        Some(section) => {
            let r = section_rank(section);
            PipelineSteps {
                basemap: s.basemap && r >= 0,
                contours: s.contours && r >= 0,
                openness: s.openness && r >= 1,
                vegetation: s.vegetation && r >= 2,
                buildings: s.buildings && r >= 3,
                cliffs: s.cliffs && r >= 4,
                water: s.water && r >= 5,
                marsh: s.marsh && r >= 6,
                streams: s.streams && r >= 7,
                intensity: s.intensity && r >= 8,
            }
        },
    }
}

/// The steps to run for a regeneration, before the scope and the reached
/// section apply: with no previous parameters, or a changed scale,
/// nothing beyond the scope; otherwise what the changes call for.
pub open spec fn base_steps(changes: Option<ParameterChanges>) -> PipelineSteps {
    match changes {
        None => no_steps(),
        Some(c) => if c.scale {
            no_steps()
        } else {
            detected_steps(c)
        },
    }
}

/// The steps that [`changed_steps`] plans.
pub open spec fn planned_steps(
    changes: Option<ParameterChanges>,
    scope: RegenerationScope,
    reached: Option<MapPreviewSection>,
) -> PipelineSteps {
    limited_steps(scoped_steps(base_steps(changes), scope), reached)
}

/// Adds every step of the requested section.
fn force_scope(steps: &mut PipelineSteps, scope: RegenerationScope)
    ensures
        *final(steps) == scoped_steps(*old(steps), scope),
{
    match scope {
        RegenerationScope::Changed => {},
        RegenerationScope::Section(MapPreviewSection::Openness) => {
            steps.openness = true;
            steps.buildings = true;
        },
        RegenerationScope::Section(MapPreviewSection::Vegetation) => {
            steps.vegetation = true;
            steps.buildings = true;
        },
        RegenerationScope::Section(MapPreviewSection::Buildings) => {
            steps.buildings = true;
            steps.openness = true;
            steps.vegetation = true;
            steps.cliffs = true;
            steps.intensity = true;
            steps.water = true;
            steps.marsh = true;
        },
        RegenerationScope::Section(MapPreviewSection::Cliffs) => {
            steps.cliffs = true;
            steps.buildings = true;
        },
        RegenerationScope::Section(MapPreviewSection::Water) => {
            steps.water = true;
            steps.buildings = true;
        },
        RegenerationScope::Section(MapPreviewSection::Marsh) => {
            steps.marsh = true;
            steps.buildings = true;
        },
        RegenerationScope::Section(MapPreviewSection::Streams) => {
            steps.streams = true;
        },
        RegenerationScope::Section(MapPreviewSection::Intensity) => {
            steps.intensity = true;
            steps.buildings = true;
        },
        RegenerationScope::Section(MapPreviewSection::Contours) => {
            steps.contours = true;
            steps.basemap = true;
        },
    }
}

/// Clears every step whose section the preview has not reached yet.
fn limit_to_reached_sections(steps: &mut PipelineSteps, preview_section_reached: Option<MapPreviewSection>)
    ensures
        *final(steps) == limited_steps(*old(steps), preview_section_reached),
{
    let reached = match preview_section_reached {
        None => {
            *steps = PipelineSteps::default();
            return;
        },
        Some(section) => section.rank(),
    };
    if reached < MapPreviewSection::Contours.rank() {
        steps.basemap = false;
        steps.contours = false;
    }
    if reached < MapPreviewSection::Openness.rank() {
        steps.openness = false;
    }
    if reached < MapPreviewSection::Vegetation.rank() {
        steps.vegetation = false;
    }
    if reached < MapPreviewSection::Buildings.rank() {
        steps.buildings = false;
    }
    if reached < MapPreviewSection::Cliffs.rank() {
        steps.cliffs = false;
    }
    if reached < MapPreviewSection::Water.rank() {
        steps.water = false;
    }
    if reached < MapPreviewSection::Marsh.rank() {
        steps.marsh = false;
    }
    if reached < MapPreviewSection::Streams.rank() {
        steps.streams = false;
    }
    if reached < MapPreviewSection::Intensity.rank() {
        steps.intensity = false;
    }
}

/// Plans which pipeline steps a regeneration runs. `changes` is `None` for
/// the first generation, when there are no previous parameters.
pub fn changed_steps(
    changes: Option<ParameterChanges>,
    scope: RegenerationScope,
    preview_section_reached: Option<MapPreviewSection>,
) -> (steps: PipelineSteps)
    ensures
        steps == planned_steps(changes, scope, preview_section_reached),
{
    let mut steps = PipelineSteps::default();
    let c = match changes {
        None => {
            force_scope(&mut steps, scope);
            limit_to_reached_sections(&mut steps, preview_section_reached);
            return steps;
        },
        Some(c) => c,
    };
    if c.scale {
        force_scope(&mut steps, scope);
        limit_to_reached_sections(&mut steps, preview_section_reached);
        return steps;
    }
    steps.intensity = c.intensity_filters || c.geometry_intensity;
    steps.openness = c.vegetation_yellow || c.geometry_openness;
    steps.vegetation = c.vegetation_green || c.vegetation_weights || c.geometry_vegetation;
    let buildings_changed = c.building || c.geometry_buildings;
    steps.buildings = buildings_changed;
    let polynomial_fit_changed = c.polynomial_fit_cliffs && (c.slope_fit_radius || c.curvature_fit_radius);
    steps.cliffs = c.cliff_algorithm || c.cliff || c.geometry_cliffs || c.collapse || c.collapse_amount_small_cliff
        || c.collapse_amount_large_cliff || c.collapse_linearity || polynomial_fit_changed;
    steps.water = c.water || c.geometry_water;
    steps.streams = c.streams || c.geometry_streams;
    steps.marsh = c.marsh || c.geometry_marsh || steps.water;

    // Building precedence changes the geometry of these layers: regenerate
    // them together so that an incremental preview keeps no stale overlap.
    if buildings_changed {
        steps.openness = true;
        steps.vegetation = true;
        steps.cliffs = true;
        steps.intensity = true;
        steps.water = true;
        steps.marsh = true;
    }
    if steps.openness || steps.vegetation || steps.cliffs || steps.intensity || steps.water || steps.marsh {
        steps.buildings = true;
    }
    steps.basemap = c.basemap_interval || c.basemap_contour;
    steps.contours = c.contour_algorithm || c.algo_lambda || c.algo_steps || c.contour_field || c.geometry_contours
        || c.form_lines || c.form_line_prune_algorithm || c.form_line_prune_threshold || c.form_line_error_threshold
        || c.form_line_geometry || c.interval || c.dot_knoll_area_min || c.dot_knoll_area_max;
    force_scope(&mut steps, scope);
    limit_to_reached_sections(&mut steps, preview_section_reached);
    steps
}

/// The step that produces the layer of a section.
pub open spec fn section_step(steps: PipelineSteps, section: MapPreviewSection) -> bool {
    match section {
        MapPreviewSection::Contours => steps.contours,
        MapPreviewSection::Openness => steps.openness,
        MapPreviewSection::Vegetation => steps.vegetation,
        MapPreviewSection::Buildings => steps.buildings,
        MapPreviewSection::Cliffs => steps.cliffs,
        MapPreviewSection::Water => steps.water,
        MapPreviewSection::Marsh => steps.marsh,
        MapPreviewSection::Streams => steps.streams,
        MapPreviewSection::Intensity => steps.intensity,
    }
}

/// No parameter differs (the cliff algorithm flag says which algorithm is
/// chosen, not whether it changed).
pub open spec fn nothing_changed(c: ParameterChanges) -> bool {
    !c.scale && !c.intensity_filters && !c.geometry_intensity && !c.vegetation_yellow && !c.geometry_openness
        && !c.vegetation_green && !c.vegetation_weights && !c.geometry_vegetation && !c.building
        && !c.geometry_buildings && !c.slope_fit_radius && !c.curvature_fit_radius && !c.cliff_algorithm
        && !c.cliff && !c.geometry_cliffs && !c.collapse && !c.collapse_amount_small_cliff
        && !c.collapse_amount_large_cliff && !c.collapse_linearity && !c.water && !c.geometry_water
        && !c.streams && !c.geometry_streams && !c.marsh && !c.geometry_marsh && !c.basemap_interval
        && !c.basemap_contour && !c.contour_algorithm && !c.algo_lambda && !c.algo_steps && !c.contour_field
        && !c.geometry_contours && !c.form_lines && !c.form_line_prune_algorithm && !c.form_line_prune_threshold
        && !c.form_line_error_threshold && !c.form_line_geometry && !c.interval && !c.dot_knoll_area_min
        && !c.dot_knoll_area_max
}

/// Law: before the preview has reached any section, nothing is computed.
pub proof fn lemma_no_section_reached_plans_nothing(changes: Option<ParameterChanges>, scope: RegenerationScope)
    ensures
        planned_steps(changes, scope, None) == no_steps(),
{
}

/// Law: no step runs for a section the preview has not reached; the
/// basemap goes with the contours.
pub proof fn lemma_steps_stay_within_reached_sections(
    changes: Option<ParameterChanges>,
    scope: RegenerationScope,
    reached: MapPreviewSection,
    section: MapPreviewSection,
)
    requires
        section_step(planned_steps(changes, scope, Some(reached)), section),
    ensures
        section_rank(section) <= section_rank(reached),
{
}

/// Law: once the buildings section is reached, regenerating any layer that
/// buildings take precedence over regenerates the buildings too.
pub proof fn lemma_dependent_layers_bring_buildings(
    changes: Option<ParameterChanges>,
    scope: RegenerationScope,
    reached: MapPreviewSection,
)
    requires
        section_rank(reached) >= section_rank(MapPreviewSection::Buildings),
    ensures
        ({
            let steps = planned_steps(changes, scope, Some(reached));
            steps.openness || steps.vegetation || steps.cliffs || steps.intensity || steps.water || steps.marsh
                ==> steps.buildings
        }),
{
}

/// Law: when only changes drive the regeneration and the marsh section is
/// reached, regenerating water regenerates marsh too.
pub proof fn lemma_water_brings_marsh(changes: Option<ParameterChanges>, reached: MapPreviewSection)
    requires
        section_rank(reached) >= section_rank(MapPreviewSection::Marsh),
    ensures
        planned_steps(changes, RegenerationScope::Changed, Some(reached)).water
            ==> planned_steps(changes, RegenerationScope::Changed, Some(reached)).marsh,
{
}

/// Law: a regeneration of a section that the preview has reached always
/// recomputes that section.
pub proof fn lemma_requested_section_is_regenerated(
    changes: Option<ParameterChanges>,
    section: MapPreviewSection,
    reached: MapPreviewSection,
)
    requires
        section_rank(section) <= section_rank(reached),
    ensures
        section_step(planned_steps(changes, RegenerationScope::Section(section), Some(reached)), section),
{
}

/// Law: with nothing changed and no section requested, nothing runs; the
/// same holds for the first generation.
pub proof fn lemma_no_change_plans_nothing(changes: Option<ParameterChanges>, reached: Option<MapPreviewSection>)
    requires
        changes matches Some(c) ==> nothing_changed(c),
    ensures
        planned_steps(changes, RegenerationScope::Changed, reached) == no_steps(),
{
}

/// Law: a new map scale plans the same steps as a first generation.
pub proof fn lemma_scale_change_is_a_first_generation(
    c: ParameterChanges,
    scope: RegenerationScope,
    reached: Option<MapPreviewSection>,
)
    requires
        c.scale,
    ensures
        planned_steps(Some(c), scope, reached) == planned_steps(None, scope, reached),
{
}


/// Law: every changed parameter regenerates its own layer, whatever the
/// scope, once the preview has reached that layer's section (unless the
/// scale changed, which starts over): stream changes bring the streams,
/// water changes bring water and marsh, a building change brings the
/// buildings and every layer they take precedence over, and so on.
pub proof fn lemma_changes_bring_their_layers(c: ParameterChanges, scope: RegenerationScope, reached: MapPreviewSection)
    requires
        !c.scale,
    ensures
        ({
            let steps = planned_steps(Some(c), scope, Some(reached));
            let r = section_rank(reached);
            &&& (c.basemap_interval || c.basemap_contour) ==> steps.basemap
            &&& (c.contour_algorithm || c.algo_lambda || c.algo_steps || c.contour_field || c.geometry_contours
                || c.form_lines || c.form_line_prune_algorithm || c.form_line_prune_threshold
                || c.form_line_error_threshold || c.form_line_geometry || c.interval || c.dot_knoll_area_min
                || c.dot_knoll_area_max) ==> steps.contours
            &&& (c.vegetation_yellow || c.geometry_openness) && r >= section_rank(MapPreviewSection::Openness)
                ==> steps.openness
            &&& (c.vegetation_green || c.vegetation_weights || c.geometry_vegetation) && r >= section_rank(
                MapPreviewSection::Vegetation,
            ) ==> steps.vegetation
            &&& (c.building || c.geometry_buildings) && r >= section_rank(MapPreviewSection::Buildings)
                ==> steps.buildings
            &&& (c.cliff_algorithm || c.cliff || c.geometry_cliffs || c.collapse || c.collapse_amount_small_cliff
                || c.collapse_amount_large_cliff || c.collapse_linearity || (c.polynomial_fit_cliffs && (
            c.slope_fit_radius || c.curvature_fit_radius))) && r >= section_rank(MapPreviewSection::Cliffs)
                ==> steps.cliffs
            &&& (c.water || c.geometry_water) && r >= section_rank(MapPreviewSection::Water) ==> steps.water
            &&& (c.water || c.geometry_water || c.marsh || c.geometry_marsh) && r >= section_rank(
                MapPreviewSection::Marsh,
            ) ==> steps.marsh
            &&& (c.streams || c.geometry_streams) && r >= section_rank(MapPreviewSection::Streams) ==> steps.streams
            &&& (c.intensity_filters || c.geometry_intensity) && r >= section_rank(MapPreviewSection::Intensity)
                ==> steps.intensity
            &&& (c.building || c.geometry_buildings) ==> {
                &&& r >= section_rank(MapPreviewSection::Openness) ==> steps.openness
                &&& r >= section_rank(MapPreviewSection::Vegetation) ==> steps.vegetation
                &&& r >= section_rank(MapPreviewSection::Cliffs) ==> steps.cliffs
                &&& r >= section_rank(MapPreviewSection::Water) ==> steps.water
                &&& r >= section_rank(MapPreviewSection::Marsh) ==> steps.marsh
                &&& r >= section_rank(MapPreviewSection::Intensity) ==> steps.intensity
            }
        }),
{
}

/// Law: regenerating the buildings section regenerates, with the
/// buildings, every layer the buildings take precedence over (openness,
/// vegetation, cliffs, water, marsh and intensity) whose section the
/// preview has reached, whatever changed.
pub proof fn lemma_buildings_section_brings_dependent_layers(
    changes: Option<ParameterChanges>,
    reached: MapPreviewSection,
)
    ensures
        ({
            let steps = planned_steps(changes, RegenerationScope::Section(MapPreviewSection::Buildings), Some(reached));
            let r = section_rank(reached);
            &&& r >= section_rank(MapPreviewSection::Openness) ==> steps.openness
            &&& r >= section_rank(MapPreviewSection::Vegetation) ==> steps.vegetation
            &&& r >= section_rank(MapPreviewSection::Buildings) ==> steps.buildings
            &&& r >= section_rank(MapPreviewSection::Cliffs) ==> steps.cliffs
            &&& r >= section_rank(MapPreviewSection::Water) ==> steps.water
            &&& r >= section_rank(MapPreviewSection::Marsh) ==> steps.marsh
            &&& r >= section_rank(MapPreviewSection::Intensity) ==> steps.intensity
        }),
{
}


/// Law: a requested section regenerates its layer once reached, the
/// contours section with the basemap, and every section but contours and
/// streams with the buildings once the buildings section is reached.
pub proof fn lemma_sections_bring_their_steps(
    changes: Option<ParameterChanges>,
    section: MapPreviewSection,
    reached: MapPreviewSection,
)
    ensures
        ({
            let steps = planned_steps(changes, RegenerationScope::Section(section), Some(reached));
            let r = section_rank(reached);
            &&& section == MapPreviewSection::Contours ==> steps.contours && steps.basemap
            &&& section == MapPreviewSection::Openness && r >= section_rank(MapPreviewSection::Openness)
                ==> steps.openness
            &&& section == MapPreviewSection::Vegetation && r >= section_rank(MapPreviewSection::Vegetation)
                ==> steps.vegetation
            &&& section == MapPreviewSection::Cliffs && r >= section_rank(MapPreviewSection::Cliffs) ==> steps.cliffs
            &&& section == MapPreviewSection::Water && r >= section_rank(MapPreviewSection::Water) ==> steps.water
            &&& section == MapPreviewSection::Marsh && r >= section_rank(MapPreviewSection::Marsh) ==> steps.marsh
            &&& section == MapPreviewSection::Streams && r >= section_rank(MapPreviewSection::Streams)
                ==> steps.streams
            &&& section == MapPreviewSection::Intensity && r >= section_rank(MapPreviewSection::Intensity)
                ==> steps.intensity
            &&& section != MapPreviewSection::Contours && section != MapPreviewSection::Streams && r >= section_rank(
                MapPreviewSection::Buildings,
            ) ==> steps.buildings
        }),
{
}

} // verus!
