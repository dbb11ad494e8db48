use hexworld::store::TileType;
use hexworld::voronoi::generate_voronoi_regions;

#[test]
fn regions_are_deterministic() {
    let a = generate_voronoi_regions(3, 0, 0, 2, 2, 2);
    let b = generate_voronoi_regions(3, 0, 0, 2, 2, 2);
    assert_eq!(a, b);
}

#[test]
fn regions_cover_the_whole_hexagon() {
    let regions = generate_voronoi_regions(2, 1, -1, 1, 1, 1);
    // a filled hexagon of radius 2 holds 19 tiles
    assert_eq!(regions.len(), 19);
    for i in 0..regions.len() {
        for j in 0..i {
            assert_ne!(regions[i].0, regions[j].0);
        }
    }
}

#[test]
fn no_requested_seeds_degenerates_to_grass() {
    let regions = generate_voronoi_regions(1, 0, 0, 0, 0, 0);
    assert_eq!(regions.len(), 7);
    for &(_, tile) in regions.iter() {
        assert_eq!(tile, TileType::Grass);
    }
}

#[test]
fn negative_seed_counts_place_no_seeds() {
    let a = generate_voronoi_regions(1, 0, 0, -5, -1, 0);
    let b = generate_voronoi_regions(1, 0, 0, 0, 0, 0);
    assert_eq!(a, b);
}

#[test]
fn empty_hexagon_yields_one_default_record() {
    let regions = generate_voronoi_regions(-1, 0, 0, 2, 2, 2);
    assert_eq!(regions, vec![((0, 0), TileType::Grass)]);
}

#[test]
fn regions_only_use_seeded_types() {
    let regions = generate_voronoi_regions(3, 0, 0, 2, 0, 1);
    assert!(regions.len() >= 1);
    for &(_, tile) in regions.iter() {
        assert!(tile == TileType::Forest || tile == TileType::Grass);
    }
}
