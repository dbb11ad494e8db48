use hexworld::astar::build_path_between_roads;
use hexworld::astar::hex_astar;
use hexworld::astar::hex_astar_path;
use hexworld::astar::validate_road_connectivity;
use hexworld::coordset::CoordSet;

fn set_of(coords: &[(i32, i32)]) -> CoordSet {
    CoordSet::from_vec(&coords.to_vec())
}

#[test]
fn straight_line_path() {
    let terrain = set_of(&[(0, 0), (1, 0), (2, 0)]);
    let path = hex_astar(0, 0, 2, 0, &terrain).expect("path should exist");
    assert_eq!(path, vec![(0, 0), (1, 0), (2, 0)]);
    assert_eq!(hex_astar_path(0, 0, 2, 0, &terrain), 2);
}

#[test]
fn unreachable_goal_outside_terrain() {
    let terrain = set_of(&[(0, 0)]);
    assert!(hex_astar(0, 0, 5, 5, &terrain).is_none());
    assert_eq!(hex_astar_path(0, 0, 5, 5, &terrain), -1);
}

#[test]
fn start_outside_terrain_fails() {
    let terrain = set_of(&[(1, 0), (2, 0)]);
    assert!(hex_astar(0, 0, 2, 0, &terrain).is_none());
    assert_eq!(hex_astar_path(0, 0, 2, 0, &terrain), -1);
}

#[test]
fn trivial_path_when_start_equals_goal() {
    let terrain = set_of(&[(3, 3)]);
    let path = hex_astar(3, 3, 3, 3, &terrain).expect("trivial path");
    assert_eq!(path, vec![(3, 3)]);
    assert_eq!(hex_astar_path(3, 3, 3, 3, &terrain), 0);
}

#[test]
fn path_routes_around_a_gap() {
    // (1, 0) is missing, so the route detours through (0, 1) and (1, 1)
    let terrain = set_of(&[(0, 0), (0, 1), (1, 1), (2, 0), (2, 1)]);
    let path = hex_astar(0, 0, 2, 0, &terrain).expect("detour should exist");
    assert_eq!(path.first(), Some(&(0, 0)));
    assert_eq!(path.last(), Some(&(2, 0)));
    assert_eq!(path.len(), 4);
    assert_eq!(hex_astar_path(0, 0, 2, 0, &terrain), 3);
    for w in path.windows(2) {
        assert_eq!(hexworld::geometry::hex_distance(w[0].0, w[0].1, w[1].0, w[1].1), 1);
    }
}

#[test]
fn path_round_trip_length_agreement() {
    let terrain = set_of(&[(0, 0), (1, 0), (1, 1), (2, 1), (3, 1), (3, 0), (0, 1)]);
    let path = hex_astar(0, 0, 3, 0, &terrain).expect("path should exist");
    let len = hex_astar_path(0, 0, 3, 0, &terrain);
    assert_eq!(path.len() as i32 - 1, len);
    // every member traversable, endpoints right
    assert_eq!(path[0], (0, 0));
    assert_eq!(*path.last().unwrap(), (3, 0));
    for &(q, r) in path.iter() {
        assert!(terrain.contains((q, r)));
    }
}

#[test]
fn between_roads_excludes_start_includes_end() {
    let terrain = set_of(&[(0, 0), (1, 0), (2, 0)]);
    let tail = build_path_between_roads(0, 0, 2, 0, &terrain).expect("path should exist");
    assert_eq!(tail, vec![(1, 0), (2, 0)]);
}

#[test]
fn between_roads_same_point_is_no_result() {
    let terrain = set_of(&[(0, 0)]);
    assert!(build_path_between_roads(0, 0, 0, 0, &terrain).is_none());
}

#[test]
fn between_roads_unreachable_is_no_result() {
    let terrain = set_of(&[(0, 0), (5, 5)]);
    assert!(build_path_between_roads(0, 0, 5, 5, &terrain).is_none());
}

#[test]
fn empty_road_set_is_connected() {
    assert!(validate_road_connectivity(&Vec::new()));
}

#[test]
fn single_road_is_connected() {
    assert!(validate_road_connectivity(&vec![(4, -4)]));
}

#[test]
fn connected_roads_validate() {
    assert!(validate_road_connectivity(&vec![(0, 0), (1, 0), (2, 0), (2, 1)]));
}

#[test]
fn disconnected_roads_fail_validation() {
    assert!(!validate_road_connectivity(&vec![(0, 0), (1, 0), (5, 5)]));
}

#[test]
fn duplicate_single_road_is_connected() {
    assert!(validate_road_connectivity(&vec![(2, 2), (2, 2)]));
}
