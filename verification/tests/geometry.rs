use hexworld::geometry::axial_to_cube;
use hexworld::geometry::cube_distance;
use hexworld::geometry::cube_ring;
use hexworld::geometry::generate_hex_grid;
use hexworld::geometry::get_hex_neighbors;
use hexworld::geometry::hex_distance;

#[test]
fn hex_distance_known_values() {
    assert_eq!(hex_distance(0, 0, 0, 0), 0);
    assert_eq!(hex_distance(0, 0, 2, 0), 2);
    assert_eq!(hex_distance(0, 0, 1, -1), 1);
    assert_eq!(hex_distance(0, 0, 3, -7), 7);
    assert_eq!(hex_distance(-2, 5, 4, -1), 6);
}

#[test]
fn hex_distance_symmetric() {
    let pairs = [(0, 0, 5, 5), (1, -2, -3, 4), (10, 0, 0, 10)];
    for &(a, b, c, d) in pairs.iter() {
        assert_eq!(hex_distance(a, b, c, d), hex_distance(c, d, a, b));
    }
}

#[test]
fn hex_distance_agrees_with_cube_distance() {
    let coords = [(0, 0), (1, 0), (-3, 2), (7, -4), (5, 5), (-6, -1)];
    for &(q1, r1) in coords.iter() {
        for &(q2, r2) in coords.iter() {
            let axial = hex_distance(q1, r1, q2, r2);
            let cube = cube_distance(axial_to_cube(q1, r1), axial_to_cube(q2, r2));
            assert_eq!(axial, cube);
        }
    }
}

#[test]
fn axial_to_cube_components_cancel() {
    let c = axial_to_cube(3, -5);
    assert_eq!(c.q, 3);
    assert_eq!(c.r, -5);
    assert_eq!(c.s, 2);
    assert_eq!(c.q + c.r + c.s, 0);
}

#[test]
fn neighbors_are_the_six_offsets() {
    let ns = get_hex_neighbors(2, 3);
    assert_eq!(
        ns,
        vec![(3, 3), (1, 3), (2, 4), (2, 2), (3, 2), (1, 4)]
    );
    for &(nq, nr) in ns.iter() {
        assert_eq!(hex_distance(2, 3, nq, nr), 1);
    }
}

#[test]
fn ring_radius_zero_is_center() {
    let center = axial_to_cube(4, -2);
    let ring = cube_ring(center, 0);
    assert_eq!(ring.len(), 1);
    assert_eq!(ring[0], center);
}

#[test]
fn ring_has_six_r_members_at_distance_r() {
    let center = axial_to_cube(1, 1);
    for radius in 1..5 {
        let ring = cube_ring(center, radius);
        assert_eq!(ring.len(), (6 * radius) as usize);
        for member in ring.iter() {
            assert_eq!(cube_distance(center, *member), radius);
        }
    }
}

#[test]
fn hex_grid_of_radius_zero_is_center_alone() {
    assert_eq!(generate_hex_grid(0, 0, 0), vec![(0, 0)]);
}

#[test]
fn hex_grid_counts_and_bounds() {
    let grid = generate_hex_grid(2, 0, 0);
    assert_eq!(grid.len(), 19);
    assert_eq!(grid[0], (0, 0));
    for &(q, r) in grid.iter() {
        assert!(hex_distance(0, 0, q, r) <= 2);
    }
    // deduplicated
    for i in 0..grid.len() {
        for j in 0..i {
            assert_ne!(grid[i], grid[j]);
        }
    }
}

#[test]
fn hex_grid_size_follows_the_hexagonal_number_formula() {
    for layer in 0..5 {
        let grid = generate_hex_grid(layer, 2, -3);
        assert_eq!(grid.len() as i32, 1 + 3 * layer * (layer + 1));
    }
}

#[test]
fn hex_grid_negative_radius_is_empty() {
    assert_eq!(generate_hex_grid(-1, 0, 0), Vec::<(i32, i32)>::new());
}
