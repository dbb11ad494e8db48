use hexworld::astar::validate_road_connectivity;
use hexworld::buildings::count_adjacent_roads;
use hexworld::buildings::generate_building_placement;
use hexworld::buildings::get_adjacent_valid_terrain;
use hexworld::coordset::CoordSet;
use hexworld::geometry::generate_hex_grid;
use hexworld::roads::find_nearest_in_set;
use hexworld::roads::generate_road_network_growing_tree;
use hexworld::shuffle::shuffle_array;

#[test]
fn shuffle_is_deterministic() {
    let coords = vec![(0, 0), (1, 0), (2, -1), (3, 4), (-5, 2), (7, 7)];
    let a = shuffle_array(coords.clone());
    let b = shuffle_array(coords.clone());
    assert_eq!(a, b);
}

#[test]
fn shuffle_permutes() {
    let coords = vec![(0, 0), (1, 0), (2, -1), (3, 4), (-5, 2)];
    let mut shuffled = shuffle_array(coords.clone());
    let mut original = coords.clone();
    shuffled.sort();
    original.sort();
    assert_eq!(shuffled, original);
}

#[test]
fn shuffle_of_empty_and_single_lists() {
    assert_eq!(shuffle_array(Vec::new()), Vec::<(i32, i32)>::new());
    assert_eq!(shuffle_array(vec![(3, 3)]), vec![(3, 3)]);
}

#[test]
fn adjacent_road_count_is_exact() {
    let roads = CoordSet::from_vec(&vec![(1, 0), (-1, 0), (0, 1), (5, 5)]);
    assert_eq!(count_adjacent_roads(0, 0, &roads), 3);
    assert_eq!(count_adjacent_roads(9, 9, &roads), 0);
}

#[test]
fn nearest_in_set_picks_the_closest() {
    let set = CoordSet::from_vec(&vec![(5, 0), (2, 0), (8, 0)]);
    let (nearest, dist) = find_nearest_in_set((0, 0), &set).expect("set is not empty");
    assert_eq!(nearest, (2, 0));
    assert_eq!(dist, 2);
    assert!(find_nearest_in_set((0, 0), &CoordSet::new()).is_none());
}

#[test]
fn road_network_output_is_connected() {
    let terrain = generate_hex_grid(3, 0, 0);
    let seeds = vec![(0, 0), (2, 0), (-2, 1)];
    let roads = generate_road_network_growing_tree(&seeds, &terrain, &Vec::new(), 12);
    assert!(roads.len() >= 1);
    assert!(validate_road_connectivity(&roads));
}

#[test]
fn road_network_respects_occupied_cells() {
    let terrain = generate_hex_grid(2, 0, 0);
    let occupied = vec![(1, 0)];
    let seeds = vec![(0, 0), (2, 0)];
    let roads = generate_road_network_growing_tree(&seeds, &terrain, &occupied, 6);
    assert!(!roads.contains(&(1, 0)));
    assert!(validate_road_connectivity(&roads));
}

#[test]
fn road_network_output_is_sorted_and_unique() {
    let terrain = generate_hex_grid(2, 0, 0);
    let seeds = vec![(0, 0), (1, 1)];
    let roads = generate_road_network_growing_tree(&seeds, &terrain, &Vec::new(), 8);
    for w in roads.windows(2) {
        assert!(w[0] < w[1]);
    }
}

#[test]
fn road_network_without_eligible_seeds_is_empty() {
    let terrain = vec![(0, 0), (1, 0)];
    let seeds = vec![(9, 9)];
    let roads = generate_road_network_growing_tree(&seeds, &terrain, &Vec::new(), 2);
    assert!(roads.is_empty());
}

#[test]
fn adjacent_valid_terrain_is_exact_and_sorted() {
    let roads = vec![(0, 0)];
    let terrain = vec![(0, 0), (1, 0), (0, 1), (2, 2), (-1, 1)];
    let occupied = vec![(0, 1)];
    let adj = get_adjacent_valid_terrain(&roads, &terrain, &occupied);
    assert_eq!(adj, vec![(-1, 1), (1, 0)]);
}

#[test]
fn building_placement_is_deterministic_and_bounded() {
    let terrain = generate_hex_grid(2, 0, 0);
    let roads = vec![(0, 0), (1, 0), (2, 0)];
    let a = generate_building_placement(&terrain, &roads, &roads, 1, 3);
    let b = generate_building_placement(&terrain, &roads, &roads, 1, 3);
    assert_eq!(a, b);
    assert!(a.len() <= 3);
    let road_set = CoordSet::from_vec(&roads);
    for &(q, r) in a.iter() {
        assert!(count_adjacent_roads(q, r, &road_set) >= 1);
        assert!(!roads.contains(&(q, r)));
    }
}

#[test]
fn building_placement_requires_enough_adjacent_roads() {
    let terrain = generate_hex_grid(2, 0, 0);
    let roads = vec![(2, 0)];
    // no tile has three roads next to it, so nothing qualifies
    let placed = generate_building_placement(&terrain, &roads, &Vec::new(), 3, 5);
    assert!(placed.is_empty());
}
