use omapmaker::map_gen::common::compute_marsh::{
    close_mask, dilate, disk_offsets, erode, finalize_marsh_mask, open_mask, retain_minimum_area_components, MarshReasonCode,
};
use omapmaker::map_gen::common::grid::{fill_small_holes, large_regions, neighbors4, neighbors8};

fn mask_from(rows: &[&str]) -> (Vec<bool>, usize, usize) {
    let width = rows[0].len();
    let mask = rows.iter().flat_map(|row| row.chars().map(|c| c == '#')).collect();
    (mask, width, rows.len())
}

#[test]
fn reason_codes_are_stable() {
    assert_eq!(MarshReasonCode::NoReason.code(), 0);
    assert_eq!(MarshReasonCode::InsufficientObservationSupport.code(), 1);
    assert_eq!(MarshReasonCode::OpenWater.code(), 2);
    assert_eq!(MarshReasonCode::Building.code(), 3);
    assert_eq!(MarshReasonCode::NonPlanarSurface.code(), 4);
    assert_eq!(MarshReasonCode::EdgeDependentDrainage.code(), 5);
    assert_eq!(MarshReasonCode::Terrain.code(), 10);
    assert_eq!(MarshReasonCode::Hydrology.code(), 11);
}

#[test]
fn disk_offsets_cover_the_disk_row_by_row() {
    assert_eq!(disk_offsets(0), vec![(0, 0)]);
    assert_eq!(disk_offsets(1), vec![(-1, 0), (0, -1), (0, 0), (0, 1), (1, 0)]);
    let two = disk_offsets(2);
    assert_eq!(two.len(), 13);
    assert_eq!(two[0], (-2, 0));
    assert_eq!(two[12], (2, 0));
    assert!(!two.contains(&(1, 2)));
}

#[test]
fn dilation_grows_a_point_into_a_disk() {
    let (mask, width, height) = mask_from(&[".....", ".....", "..#..", ".....", "....."]);
    let (expected, _, _) = mask_from(&[".....", "..#..", ".###.", "..#..", "....."]);
    assert_eq!(dilate(&mask, width, height, 1), expected);
    assert_eq!(dilate(&mask, width, height, 0), mask);
}

#[test]
fn erosion_treats_the_outside_as_clear() {
    let (mask, width, height) = mask_from(&["###", "###", "###"]);
    let (expected, _, _) = mask_from(&["...", ".#.", "..."]);
    assert_eq!(erode(&mask, width, height, 1), expected);
}

#[test]
fn opening_removes_specks_and_keeps_blobs() {
    let (mask, width, height) = mask_from(&[
        "#......", //
        "...#...", //
        "..###..", //
        "...#...", //
        ".......",
    ]);
    let (expected, _, _) = mask_from(&[
        ".......", //
        "...#...", //
        "..###..", //
        "...#...", //
        ".......",
    ]);
    let opened = open_mask(&mask, width, height, 1);
    assert_eq!(opened, expected);
    assert!(opened.iter().zip(&mask).all(|(after, before)| !*after || *before));
}

#[test]
fn closing_fills_an_interior_gap_and_keeps_interior_cells() {
    let (mask, width, height) = mask_from(&[
        ".......", //
        ".#####.", //
        ".#####.", //
        ".##.##.", //
        ".#####.", //
        ".#####.", //
        ".......",
    ]);
    let closed = close_mask(&mask, width, height, 1);
    assert!(closed[3 * width + 3]);
    for y in 2..5 {
        for x in 2..5 {
            assert!(closed[y * width + x]);
        }
    }
    // A speck in the corner is closed away: its disk leaves the raster.
    let (corner, w, h) = mask_from(&["#..", "...", "..."]);
    assert_eq!(close_mask(&corner, w, h, 1), vec![false; 9]);
}

#[test]
fn enclosed_small_holes_are_filled() {
    let (mut mask, width, height) = mask_from(&[
        "#####.", //
        "#..##.", //
        "#####.", //
    ]);
    fill_small_holes(&mut mask, width, height, 2);
    let (expected, _, _) = mask_from(&["#####.", "#####.", "#####."]);
    assert_eq!(mask, expected);

    let (mut mask, width, height) = mask_from(&["#####", "#...#", "#####"]);
    fill_small_holes(&mut mask, width, height, 2);
    assert_eq!(mask, mask_from(&["#####", "#...#", "#####"]).0);
    fill_small_holes(&mut mask, width, height, 3);
    assert_eq!(mask, vec![true; 15]);

    let (mut mask, width, height) = mask_from(&["#.#", "#.#", "###"]);
    fill_small_holes(&mut mask, width, height, 10);
    assert_eq!(mask, mask_from(&["#.#", "#.#", "###"]).0);
}

#[test]
fn holes_are_four_connected() {
    // The two holes touch only at a corner, so each is a hole of one cell.
    let (mut mask, width, height) = mask_from(&["####", "#.##", "##.#", "####"]);
    fill_small_holes(&mut mask, width, height, 1);
    assert_eq!(mask, vec![true; 16]);
}

#[test]
fn regions_below_the_minimum_are_cleared() {
    let (mask, width, height) = mask_from(&["##..", "#...", "...#"]);
    let (expected, _, _) = mask_from(&["##..", "#...", "...."]);
    assert_eq!(large_regions(&mask, width, height, 2), expected);

    let mut retained = mask.clone();
    retain_minimum_area_components(&mut retained, width, height, 3);
    assert_eq!(retained, expected);
    let mut retained = mask.clone();
    retain_minimum_area_components(&mut retained, width, height, 1);
    assert_eq!(retained, mask);
    let mut retained = mask.clone();
    retain_minimum_area_components(&mut retained, width, height, 4);
    assert_eq!(retained, vec![false; 12]);
}

#[test]
fn regions_are_eight_connected() {
    let (mask, width, height) = mask_from(&["#..", ".#.", "..#"]);
    assert_eq!(large_regions(&mask, width, height, 3), mask);
}

#[test]
fn final_mask_stays_inside_the_growth_set() {
    let (grown, width, height) = mask_from(&[
        ".......", //
        ".#####.", //
        ".#####.", //
        ".#####.", //
        ".......",
    ]);
    let (growth, _, _) = mask_from(&[
        ".......", //
        ".#####.", //
        ".#####.", //
        ".####..", //
        ".......",
    ]);
    let (water, _, _) = mask_from(&[
        ".......", //
        ".#.....", //
        ".......", //
        ".......", //
        ".......",
    ]);
    let buildings = vec![false; width * height];
    let mask = finalize_marsh_mask(&grown, &growth, &water, &buildings, width, height, 0, 0, 0, 0);
    let (expected, _, _) = mask_from(&[
        ".......", //
        "..####.", //
        ".#####.", //
        ".####..", //
        ".......",
    ]);
    assert_eq!(mask, expected);
    for index in 0..mask.len() {
        assert!(!mask[index] || (growth[index] && !water[index] && !buildings[index]));
    }

    // Regions under the minimum area disappear.
    let mask = finalize_marsh_mask(&grown, &growth, &water, &buildings, width, height, 0, 0, 0, 14);
    assert_eq!(mask, vec![false; width * height]);
}

#[test]
fn final_mask_fills_small_enclosed_holes() {
    let (grown, width, height) = mask_from(&[
        ".....", //
        ".###.", //
        ".#.#.", //
        ".###.", //
        ".....",
    ]);
    let growth = vec![true; width * height];
    let clear = vec![false; width * height];
    let mask = finalize_marsh_mask(&grown, &growth, &clear, &clear, width, height, 0, 0, 1, 0);
    let (expected, _, _) = mask_from(&[".....", ".###.", ".###.", ".###.", "....."]);
    assert_eq!(mask, expected);
}

#[test]
fn neighbours_are_listed_in_order() {
    assert_eq!(neighbors4(1, 1, 3, 3), vec![1, 5, 7, 3]);
    assert_eq!(neighbors4(0, 0, 3, 3), vec![1, 3]);
    assert_eq!(neighbors8(1, 1, 3, 3), vec![0, 1, 2, 3, 5, 6, 7, 8]);
    assert_eq!(neighbors8(2, 2, 3, 3), vec![4, 5, 7]);
}
