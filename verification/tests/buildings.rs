use omapmaker::map_gen::common::compute_buildings::{
    candidate_regions, close_mask, label_candidate_components, label_regions, merge_candidates, nearest_candidate_id,
    region_shape, retain_candidate_components, sample_without_replacement, DeterministicRng, RegionShape,
};

fn mask_from(rows: &[&str]) -> (Vec<bool>, usize, usize) {
    let width = rows[0].len();
    let mask = rows.iter().flat_map(|row| row.chars().map(|c| c == '#')).collect();
    (mask, width, rows.len())
}

#[test]
fn generator_sequence_is_fixed_by_the_seed() {
    let mut rng = DeterministicRng::new(42);
    assert_eq!(rng.index(1000), 825);
    assert_eq!(rng.index(1000), 762);
}

#[test]
fn zero_seed_starts_from_state_one() {
    // The state after one step from 1 is 1_082_269_761; over the full range
    // the index is that value minus one.
    let mut rng = DeterministicRng::new(0);
    assert_eq!(rng.index(usize::MAX), 1_082_269_760);
}

#[test]
fn index_stays_below_the_bound() {
    let mut rng = DeterministicRng::new(12345);
    for upper in 1..200 {
        assert!(rng.index(upper) < upper);
    }
    assert_eq!(rng.index(0), 0);
}

#[test]
fn sampling_draws_distinct_positions() {
    let population: Vec<usize> = (100..110).collect();
    let mut rng = DeterministicRng::new(7);
    let sample = sample_without_replacement(&population, 3, &mut rng);
    assert_eq!(sample, vec![107, 108, 104]);

    for seed in 0..50 {
        let mut rng = DeterministicRng::new(seed);
        let mut sample = sample_without_replacement(&population, 6, &mut rng);
        sample.sort();
        sample.dedup();
        assert_eq!(sample.len(), 6);
    }
    let mut rng = DeterministicRng::new(3);
    let mut everything = sample_without_replacement(&population, population.len(), &mut rng);
    everything.sort();
    assert_eq!(everything, population);
}

#[test]
fn candidates_are_labelled_in_raster_order() {
    let (mask, width, height) = mask_from(&[
        "#..#", //
        ".#..", //
        "...#", //
        "##..",
    ]);
    let (ids, components) = label_candidate_components(&mask, width, height);
    assert_eq!(ids, vec![1, 0, 0, 2, 0, 1, 0, 0, 0, 0, 0, 3, 4, 4, 0, 0]);
    assert_eq!(components.len(), 4);
    assert_eq!(components[0], vec![0, 5]);
    assert_eq!(components[1], vec![3]);
    assert_eq!(components[2], vec![11]);
    assert_eq!(components[3], vec![12, 13]);
}

#[test]
fn labelling_lists_every_cell_once() {
    let (mask, width, height) = mask_from(&[
        "##.##", //
        "#...#", //
        "#####",
    ]);
    let (ids, components) = label_candidate_components(&mask, width, height);
    assert_eq!(components.len(), 1);
    let mut cells = components[0].clone();
    assert_eq!(cells[0], 0);
    cells.sort();
    assert_eq!(cells, vec![0, 1, 3, 4, 5, 9, 10, 11, 12, 13, 14]);
    assert!(ids.iter().zip(&mask).all(|(id, set)| (*id == 1) == *set));
}

#[test]
fn covered_cell_keeps_its_own_candidate() {
    let ids = vec![0, 0, 0, 0, 2, 0, 0, 0, 0];
    assert_eq!(nearest_candidate_id(4, &ids, 3, 3, 1), Some(2));
}

#[test]
fn nearest_candidate_prefers_distance_then_smaller_id() {
    let ids = vec![
        0, 0, 0, 0, 0,
        0, 0, 0, 0, 0,
        0, 0, 0, 0, 7,
        0, 0, 0, 0, 0,
        3, 0, 0, 0, 5,
    ];
    // From the centre: 7 lies 2 away, 5 and 3 lie sqrt(8) away.
    assert_eq!(nearest_candidate_id(12, &ids, 5, 5, 2), Some(7));
    assert_eq!(nearest_candidate_id(12, &ids, 5, 5, 3), Some(7));
    // From (3, 2): 3 and 5 both lie sqrt(5) away; 3 is smaller.
    assert_eq!(nearest_candidate_id(17, &ids, 5, 5, 3), Some(3));
    // Nothing within one cell of the top-left corner.
    assert_eq!(nearest_candidate_id(0, &ids, 5, 5, 1), None);
    // Candidate 7 lies two cells from the centre, outside a radius of one.
    assert_eq!(nearest_candidate_id(12, &ids, 5, 5, 1), None);
}

#[test]
fn box_closing_fills_gaps_and_keeps_the_mask() {
    let (mask, width, height) = mask_from(&[
        ".....", //
        ".#.#.", //
        ".....", //
    ]);
    // The box is cut at the raster edge, so the dilation covers the whole
    // raster and the erosion keeps all of it.
    let closed = close_mask(&mask, width, height, 1);
    assert_eq!(closed, vec![true; 15]);
    assert!(mask.iter().zip(&closed).all(|(before, after)| !*before || *after));
    let (mask2, w2, h2) = mask_from(&["#.#"]);
    assert_eq!(close_mask(&mask2, w2, h2, 1), vec![true, true, true]);
    assert_eq!(close_mask(&mask, width, height, 0), mask);
    let (sparse, w3, h3) = mask_from(&[
        "#......", //
        ".......", //
        ".......", //
        "......#",
    ]);
    let closed = close_mask(&sparse, w3, h3, 1);
    let (expected, _, _) = mask_from(&[
        "#......", //
        ".......", //
        ".......", //
        "......#",
    ]);
    assert_eq!(closed, expected);
}

#[test]
fn small_candidate_regions_are_dropped() {
    let (seeds, width, height) = mask_from(&[
        "##...", //
        "##..#", //
        "...#.",
    ]);
    let retained = retain_candidate_components(&seeds, width, height, 3);
    let (expected, _, _) = mask_from(&[
        "##...", //
        "##...", //
        ".....",
    ]);
    assert_eq!(retained, expected);
    assert_eq!(retain_candidate_components(&seeds, width, height, 2), seeds);
}

#[test]
fn candidate_regions_are_four_connected_with_their_shapes() {
    let (mask, width, height) = mask_from(&["##.", "#..", "..#"]);
    let (ids, components, shapes) = candidate_regions(&mask, width, height);
    assert_eq!(ids, vec![1, 1, 0, 1, 0, 0, 0, 0, 2]);
    assert_eq!(components.len(), 2);
    assert_eq!(shapes[0], RegionShape { cells: 3, perimeter_edges: 8, min_x: 0, max_x: 1, min_y: 0, max_y: 1 });
    assert_eq!(shapes[1], RegionShape { cells: 1, perimeter_edges: 4, min_x: 2, max_x: 2, min_y: 2, max_y: 2 });

    // Diagonal cells are separate regions under 4-connectivity and one
    // region under 8-connectivity.
    let (diagonal, w, h) = mask_from(&["#.", ".#"]);
    assert_eq!(label_regions(&diagonal, w, h, false).0, vec![1, 0, 0, 2]);
    assert_eq!(label_regions(&diagonal, w, h, true).0, vec![1, 0, 0, 1]);
}

#[test]
fn a_full_block_exposes_only_its_outline() {
    let mask = vec![true; 12];
    let cells: Vec<usize> = (0..12).collect();
    let shape = region_shape(&mask, 4, 3, &cells);
    assert_eq!(shape, RegionShape { cells: 12, perimeter_edges: 14, min_x: 0, max_x: 3, min_y: 0, max_y: 2 });
}

#[test]
fn merged_candidates_keep_large_seed_regions() {
    let (seeds, width, height) = mask_from(&[
        "##.##..", //
        "##.##..", //
        ".......", //
        "......#",
    ]);
    let merged = merge_candidates(&seeds, width, height, 3, 1, 0);
    let (expected, _, _) = mask_from(&[
        "#####..", //
        "#####..", //
        ".......", //
        ".......",
    ]);
    assert_eq!(merged, expected);
}
