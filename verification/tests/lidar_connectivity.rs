use geo::{Distance, Euclidean};
use omapmaker::lidar::connectivity::connected_components;
use omapmaker::map_gen::egui_map::map_laz::{connected_components as neighborhood_components, NeighborList};

// The shared touch margin between LiDAR bounds, in metres.
const TOUCH_MARGIN: f64 = 1.0;

fn bounds_adjacency(bounds: &[geo::Rect], margin: f64) -> Vec<Vec<bool>> {
    bounds
        .iter()
        .map(|a| bounds.iter().map(|b| Euclidean.distance(a, b) <= margin).collect())
        .collect()
}

fn polygon_adjacency(polygons: &[geo::Polygon], margin: f64) -> Vec<Vec<bool>> {
    polygons
        .iter()
        .map(|a| polygons.iter().map(|b| Euclidean.distance(a, b) <= margin).collect())
        .collect()
}

#[test]
fn exact_and_near_touches_share_a_component_but_larger_gaps_do_not() {
    let margin = TOUCH_MARGIN;
    let bounds = [
        geo::Rect::new((0., 0.), (10., 10.)),
        geo::Rect::new((10., 0.), (20., 10.)),
        geo::Rect::new((20. + margin, 0.), (30. + margin, 10.)),
        geo::Rect::new((30. + 2. * margin + 1e-6, 0.), (40. + 2. * margin + 1e-6, 10.)),
    ];

    assert_eq!(connected_components(&bounds_adjacency(&bounds, margin)), vec![vec![0, 1, 2], vec![3]]);
}

#[test]
fn connectivity_is_transitive_for_non_rectangular_layouts() {
    let bounds = [
        geo::Rect::new((0., 0.), (10., 10.)),
        geo::Rect::new((10., 0.), (20., 10.)),
        geo::Rect::new((0., 10.), (10., 20.)),
        geo::Rect::new((100., 100.), (110., 110.)),
    ];

    assert_eq!(connected_components(&bounds_adjacency(&bounds, TOUCH_MARGIN)), vec![vec![0, 1, 2], vec![3]]);
}

#[test]
fn clipped_polygons_use_the_shared_touch_margin() {
    let margin = TOUCH_MARGIN;
    let polygons = [
        geo::Rect::new((0., 0.), (10., 10.)).to_polygon(),
        geo::Rect::new((10. + margin, 0.), (20. + margin, 10.)).to_polygon(),
        geo::Rect::new((20. + 2. * margin + 1e-6, 0.), (30. + 2. * margin + 1e-6, 10.)).to_polygon(),
    ];

    assert_eq!(connected_components(&polygon_adjacency(&polygons, margin)), vec![vec![0, 1], vec![2]]);
}

#[test]
fn bounds_components_support_non_rectangular_and_overlapping_layouts() {
    let bounds = [
        geo::Rect::new((0., 0.), (10., 10.)),
        geo::Rect::new((10., 0.), (20., 10.)),
        geo::Rect::new((0., 10.), (10., 20.)),
        geo::Rect::new((8., 8.), (12., 12.)),
        geo::Rect::new((100., 100.), (110., 110.)),
    ];
    // A tenth of the average tile size.
    let average_size = bounds.iter().map(|b| b.width() + b.height()).sum::<f64>() / (2 * bounds.len()) as f64;
    let margin = 0.1 * average_size;

    assert_eq!(connected_components(&bounds_adjacency(&bounds, margin)), vec![vec![0, 1, 2, 3], vec![4]]);
}

#[test]
fn no_tiles_give_no_components() {
    assert!(connected_components(&Vec::new()).is_empty());
}

#[test]
fn components_are_sorted_and_ordered_by_their_smallest_tile() {
    // 0-3, 1-4, 2 alone.
    let mut adjacency = vec![vec![false; 5]; 5];
    for (a, b) in [(0, 3), (4, 1)] {
        adjacency[a][b] = true;
        adjacency[b][a] = true;
    }
    assert_eq!(connected_components(&adjacency), vec![vec![0, 3], vec![1, 4], vec![2]]);
}

#[test]
fn touching_is_carried_through_chains() {
    // 4-2, 2-0: a chain reaching back to the first tile.
    let mut adjacency = vec![vec![false; 5]; 5];
    for (a, b) in [(4, 2), (2, 0), (1, 3)] {
        adjacency[a][b] = true;
        adjacency[b][a] = true;
    }
    assert_eq!(connected_components(&adjacency), vec![vec![0, 2, 4], vec![1, 3]]);
}

#[test]
fn neighbourhoods_are_joined_in_both_directions() {
    let graph = vec![
        NeighborList { center: 0, neighbors: vec![] },
        NeighborList { center: 1, neighbors: vec![0] },
        NeighborList { center: 2, neighbors: vec![] },
        NeighborList { center: 3, neighbors: vec![2, 1] },
        NeighborList { center: 4, neighbors: vec![] },
    ];
    assert_eq!(sorted_groups(neighborhood_components(&graph)), vec![vec![0, 1, 2, 3], vec![4]]);
}

// Each group lists its tiles in no promised order; the order of the groups
// is fixed.
fn sorted_groups(mut groups: Vec<Vec<usize>>) -> Vec<Vec<usize>> {
    for group in groups.iter_mut() {
        group.sort();
    }
    groups
}

fn neighbor_graph(n: usize, edges: &[(usize, usize)]) -> Vec<NeighborList> {
    let mut graph: Vec<NeighborList> = (0..n).map(|center| NeighborList { center, neighbors: vec![] }).collect();
    for &(a, b) in edges {
        graph[a].neighbors.push(b);
        graph[b].neighbors.push(a);
    }
    graph
}

#[test]
fn merged_groups_leave_their_place_to_the_last_group() {
    // Tile 6 joins the groups of 1 and 2; the group of 2 is swap-removed,
    // so the last group, of tile 5, moves into its place.
    let graph = neighbor_graph(8, &[(1, 6), (6, 7), (7, 2)]);
    assert_eq!(
        sorted_groups(neighborhood_components(&graph)),
        vec![vec![0], vec![1, 2, 6, 7], vec![5], vec![3], vec![4]]
    );
}

#[test]
fn one_sweep_after_the_last_tile_can_leave_a_tile_in_two_groups() {
    // Tile 3 reaches the groups {0, 1} and {2}; the new group {1, 2, 3}
    // merges into {0, 1} only, and no later tile sweeps again.
    let graph = vec![
        NeighborList { center: 0, neighbors: vec![] },
        NeighborList { center: 1, neighbors: vec![0] },
        NeighborList { center: 2, neighbors: vec![] },
        NeighborList { center: 3, neighbors: vec![2, 1] },
    ];
    assert_eq!(sorted_groups(neighborhood_components(&graph)), vec![vec![0, 1, 2, 3], vec![2]]);
}
