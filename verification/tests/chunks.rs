use hexworld::chunks::calculate_chunk_for_tile;
use hexworld::chunks::calculate_chunk_neighbors;
use hexworld::chunks::calculate_chunk_radius;
use hexworld::chunks::disable_distant_chunks;
use hexworld::chunks::find_nearest_neighbor_chunk;
use hexworld::geometry::hex_distance;

/// Reproduce the documented rotation arithmetic: the base offset (taken
/// from the ring count) rotated four times for alignment, then through the
/// six directions with `(q, r) -> (q + r, -q)`.
fn expected_neighbors(center_q: i32, center_r: i32, rings: i32) -> Vec<(i32, i32)> {
    let (mut q, mut r) = if rings == 0 { (1, 0) } else { (rings, rings + 1) };
    for _ in 0..4 {
        let (nq, nr) = (q + r, -q);
        q = nq;
        r = nr;
    }
    let mut out = Vec::new();
    for _ in 0..6 {
        out.push((center_q + q, center_r + r));
        let (nq, nr) = (q + r, -q);
        q = nq;
        r = nr;
    }
    out
}

#[test]
fn chunk_radius_equals_rings() {
    assert_eq!(calculate_chunk_radius(0), 0);
    assert_eq!(calculate_chunk_radius(7), 7);
}

#[test]
fn chunk_neighbors_match_the_rotation_rule() {
    for rings in 0..4 {
        let got = calculate_chunk_neighbors(0, 0, rings);
        assert_eq!(got, expected_neighbors(0, 0, rings));
    }
    let shifted = calculate_chunk_neighbors(5, -3, 2);
    assert_eq!(shifted, expected_neighbors(5, -3, 2));
}

#[test]
fn chunk_neighbors_of_one_ring_are_six_distinct() {
    let ns = calculate_chunk_neighbors(0, 0, 1);
    assert_eq!(ns.len(), 6);
    for i in 0..ns.len() {
        for j in 0..i {
            assert_ne!(ns[i], ns[j]);
        }
    }
    // all six lie at one common distance from the center
    let d0 = hex_distance(0, 0, ns[0].0, ns[0].1);
    for &(q, r) in ns.iter() {
        assert_eq!(hex_distance(0, 0, q, r), d0);
    }
}

#[test]
fn nearest_neighbor_chunk_minimizes_tile_distance() {
    let existing = vec![(2, 3)];
    let info = find_nearest_neighbor_chunk(0, 0, 2, 2, 1, &existing).expect("six neighbors");
    let ns = calculate_chunk_neighbors(0, 0, 1);
    assert!(ns.contains(&info.neighbor));
    assert_eq!(
        info.distance,
        hex_distance(2, 2, info.neighbor.0, info.neighbor.1)
    );
    for &(q, r) in ns.iter() {
        assert!(hex_distance(2, 2, q, r) >= info.distance);
    }
    assert_eq!(info.is_instantiated, existing.contains(&info.neighbor));
}

#[test]
fn chunk_for_tile_prefers_exact_center() {
    let chunks = vec![(3, 3), (0, 0)];
    assert_eq!(calculate_chunk_for_tile(0, 0, 2, &chunks), Some((0, 0)));
}

#[test]
fn chunk_for_tile_picks_nearest_within_rings() {
    let chunks = vec![(0, 0), (4, 0)];
    assert_eq!(calculate_chunk_for_tile(1, 0, 2, &chunks), Some((0, 0)));
    assert_eq!(calculate_chunk_for_tile(3, 0, 2, &chunks), Some((4, 0)));
}

#[test]
fn chunk_for_tile_without_cover_is_none() {
    let chunks = vec![(0, 0)];
    assert_eq!(calculate_chunk_for_tile(9, 9, 2, &chunks), None);
}

#[test]
fn distant_chunks_partition() {
    let all = vec![(0, 0, true), (10, 10, true)];
    let (to_disable, to_enable) = disable_distant_chunks(0, 0, &all, 2);
    assert_eq!(to_disable, vec![(10, 10)]);
    assert_eq!(to_enable, Vec::<(i32, i32)>::new());
}

#[test]
fn distant_chunks_enable_near_disabled() {
    let all = vec![(1, 0, false), (0, 5, false), (2, 2, true)];
    let (to_disable, to_enable) = disable_distant_chunks(0, 0, &all, 3);
    assert_eq!(to_disable, vec![(2, 2)]);
    assert_eq!(to_enable, vec![(1, 0)]);
}

#[test]
fn chunks_in_the_right_state_are_untouched() {
    let all = vec![(0, 0, true), (9, 9, false)];
    let (to_disable, to_enable) = disable_distant_chunks(0, 0, &all, 2);
    assert!(to_disable.is_empty());
    assert!(to_enable.is_empty());
}
