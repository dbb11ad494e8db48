//! Voronoi-style region assignment: deterministically placed seed points of
//! each terrain type, and every tile of a filled hexagon labeled with the
//! type of its nearest seed.

use vstd::prelude::*;

use crate::geometry::Coord;
use crate::geometry::GRID_BOUND;
use crate::geometry::coord_ok;
use crate::geometry::generate_hex_grid;
use crate::geometry::hex_dist;
use crate::geometry::hex_distance;
use crate::geometry::hex_grid_seq;
use crate::store::TileType;

verus! {

/// The grid index a seed draws: a prime-multiplier hash of the running seed
/// counter, taken modulo the tile count.
pub open spec fn seed_index(counter: int, i: int, tile_count: int) -> int {
    (counter * 7919 + i * 997) % tile_count
}

/// A non-positive requested count places no seeds.
pub open spec fn nonneg_count(x: i32) -> int {
    if x > 0 {
        x as int
    } else {
        0
    }
}

/// The first `count` seeds of type `t`, drawn from the grid with the seed
/// counter starting after `base` earlier seeds.
pub open spec fn seeds_rec(grid: Seq<Coord>, t: TileType, count: int, base: int) -> Seq<
    (Coord, TileType),
>
    decreases count,
{
    if count <= 0 {
        Seq::empty()
    } else {
        seeds_rec(grid, t, count - 1, base).push(
            (grid[seed_index(base + count, count - 1, grid.len() as int)], t),
        )
    }
}

/// All seeds of one region-assignment call, in placement order
/// Forest, then Water, then Grass; when every requested count is
/// non-positive, one Grass seed at the first grid tile stands in.
pub open spec fn voronoi_seeds(grid: Seq<Coord>, forest: i32, water: i32, grass: i32) -> Seq<
    (Coord, TileType),
> {
    let fc = nonneg_count(forest);
    let wc = nonneg_count(water);
    let gc = nonneg_count(grass);
    let s = seeds_rec(grid, TileType::Forest, fc, 0) + seeds_rec(grid, TileType::Water, wc, fc)
        + seeds_rec(grid, TileType::Grass, gc, fc + wc);
    if s.len() == 0 {
        seq![(grid[0], TileType::Grass)]
    } else {
        s
    }
}

/// The seed nearest to `hex` under hex distance; ties go to the earliest
/// seed in placement order.
pub open spec fn nearest_seed(seeds: Seq<(Coord, TileType)>, hex: Coord) -> (Coord, TileType)
    decreases seeds.len(),
{
    if seeds.len() <= 1 {
        seeds[0]
    } else {
        let best = nearest_seed(seeds.drop_last(), hex);
        let last = seeds.last();
        if hex_dist(hex, last.0) < hex_dist(hex, best.0) {
            last
        } else {
            best
        }
    }
}

/// Every grid tile labeled with its nearest seed's type, in grid order.
pub open spec fn voronoi_assign(grid: Seq<Coord>, seeds: Seq<(Coord, TileType)>) -> Seq<
    (Coord, TileType),
> {
    Seq::new(grid.len(), |k: int| (grid[k], nearest_seed(seeds, grid[k]).1))
}

/// What a region-assignment call returns: the labeled tiles of the filled
/// hexagon, or a single default Grass record when the hexagon is empty.
pub open spec fn spec_voronoi(
    max_layer: int,
    cq: int,
    cr: int,
    forest: i32,
    water: i32,
    grass: i32,
) -> Seq<(Coord, TileType)> {
    let grid = hex_grid_seq(max_layer, cq, cr);
    if grid.len() == 0 {
        seq![((0i32, 0i32), TileType::Grass)]
    } else {
        voronoi_assign(grid, voronoi_seeds(grid, forest, water, grass))
    }
}

/// Region assignment is deterministic: two results obtained from the same
/// arguments are identical.
pub proof fn lemma_voronoi_deterministic(
    max_layer: int,
    cq: int,
    cr: int,
    forest: i32,
    water: i32,
    grass: i32,
    r1: Seq<(Coord, TileType)>,
    r2: Seq<(Coord, TileType)>,
)
    requires
        r1 == spec_voronoi(max_layer, cq, cr, forest, water, grass),
        r2 == spec_voronoi(max_layer, cq, cr, forest, water, grass),
    ensures
        r1 == r2,
{
}

/// Seeds drawn from an in-bounds grid are in-bounds grid tiles.
proof fn lemma_seeds_rec_ok(grid: Seq<Coord>, t: TileType, count: int, base: int)
    requires
        grid.len() > 0,
        forall|kk: int| 0 <= kk < grid.len() ==> coord_ok(#[trigger] grid[kk]),
    ensures
        forall|m: int|
            0 <= m < seeds_rec(grid, t, count, base).len() ==> coord_ok(
                (#[trigger] seeds_rec(grid, t, count, base)[m]).0,
            ) && grid.contains(seeds_rec(grid, t, count, base)[m].0),
        seeds_rec(grid, t, count, base).len() == if count <= 0 {
            0int
        } else {
            count
        },
    decreases count,
{
    if count > 0 {
        lemma_seeds_rec_ok(grid, t, count - 1, base);
        let s = seeds_rec(grid, t, count, base);
        let idx = seed_index(base + count, count - 1, grid.len() as int);
        assert(0 <= idx < grid.len());
        assert(grid.contains(grid[idx]));
        assert forall|m: int|
            0 <= m < s.len() implies coord_ok((#[trigger] s[m]).0) && grid.contains(s[m].0) by {
            if m < s.len() - 1 {
                assert(s[m] == seeds_rec(grid, t, count - 1, base)[m]);
            }
        }
    }
}

/// Generate Voronoi regions over the filled hexagon of radius `max_layer`
/// around the center: seeds for each type are placed deterministically by a
/// prime-multiplier hash, then every tile is labeled with the type of its
/// nearest seed, ties going to the earliest seed.  The result is never
/// empty: an empty hexagon degenerates to a single default record.
pub fn generate_voronoi_regions(
    max_layer: i32,
    center_q: i32,
    center_r: i32,
    forest_seeds: i32,
    water_seeds: i32,
    grass_seeds: i32,
) -> (regions: Vec<(Coord, TileType)>)
    requires
        -GRID_BOUND <= center_q <= GRID_BOUND,
        -GRID_BOUND <= center_r <= GRID_BOUND,
        max_layer <= GRID_BOUND,
    ensures
        regions@ == spec_voronoi(
            max_layer as int,
            center_q as int,
            center_r as int,
            forest_seeds,
            water_seeds,
            grass_seeds,
        ),
        regions@.len() >= 1,
{
    let grid = generate_hex_grid(max_layer, center_q, center_r);
    if grid.len() == 0 {
        let mut regions: Vec<(Coord, TileType)> = Vec::new();
        regions.push(((0, 0), TileType::Grass));
        proof {
            assert(regions@ =~= seq![((0i32, 0i32), TileType::Grass)]);
        }
        return regions;
    }
    let hex_count = grid.len();
    let hex_count64 = hex_count as u64;
    let mut seeds: Vec<(Coord, TileType)> = Vec::new();
    let ghost fc = nonneg_count(forest_seeds);
    let ghost wc = nonneg_count(water_seeds);
    let ghost gc = nonneg_count(grass_seeds);

    let forest_count: u64 = if forest_seeds > 0 {
        forest_seeds as u64
    } else {
        0
    };
    let mut i: u64 = 0;
    while i < forest_count
        invariant
            grid@ == hex_grid_seq(max_layer as int, center_q as int, center_r as int),
            forall|kk: int| 0 <= kk < grid@.len() ==> coord_ok(#[trigger] grid@[kk]),
            hex_count == grid@.len(),
            hex_count64 == hex_count as u64,
            hex_count > 0,
            forest_count == fc,
            forest_count < 0x8000_0000,
            0 <= i <= forest_count,
            seeds@ == seeds_rec(grid@, TileType::Forest, i as int, 0),
        decreases forest_count - i,
    {
        let counter: u64 = i + 1;
        let index = ((counter * 7919) + i * 997) % hex_count64;
        proof {
            assert(index as int == seed_index(i + 1, i as int, grid@.len() as int));
            assert(index < hex_count64);
        }
        seeds.push((grid[index as usize], TileType::Forest));
        i += 1;
    }
    let ghost forest_part = seeds@;

    let water_count: u64 = if water_seeds > 0 {
        water_seeds as u64
    } else {
        0
    };
    let mut i: u64 = 0;
    while i < water_count
        invariant
            grid@ == hex_grid_seq(max_layer as int, center_q as int, center_r as int),
            forall|kk: int| 0 <= kk < grid@.len() ==> coord_ok(#[trigger] grid@[kk]),
            hex_count == grid@.len(),
            hex_count64 == hex_count as u64,
            hex_count > 0,
            water_count == wc,
            water_count < 0x8000_0000,
            forest_count == fc,
            forest_count < 0x8000_0000,
            forest_part == seeds_rec(grid@, TileType::Forest, fc, 0),
            0 <= i <= water_count,
            seeds@ == forest_part + seeds_rec(grid@, TileType::Water, i as int, fc),
        decreases water_count - i,
    {
        let counter: u64 = forest_count + i + 1;
        proof {
            assert(counter as int == fc + (i + 1));
        }
        let index = ((counter * 7919) + i * 997) % hex_count64;
        proof {
            assert(index as int == seed_index(fc + (i + 1), i as int, grid@.len() as int));
            assert(seeds_rec(grid@, TileType::Water, i + 1, fc) == seeds_rec(
                grid@,
                TileType::Water,
                i as int,
                fc,
            ).push((grid@[seed_index(fc + (i + 1), i as int, grid@.len() as int)], TileType::Water)));
        }
        seeds.push((grid[index as usize], TileType::Water));
        proof {
            assert(seeds@ =~= forest_part + seeds_rec(grid@, TileType::Water, i + 1, fc));
        }
        i += 1;
    }
    let ghost water_part = seeds@;

    let grass_count: u64 = if grass_seeds > 0 {
        grass_seeds as u64
    } else {
        0
    };
    let base_count: u64 = forest_count + water_count;
    let mut i: u64 = 0;
    while i < grass_count
        invariant
            grid@ == hex_grid_seq(max_layer as int, center_q as int, center_r as int),
            forall|kk: int| 0 <= kk < grid@.len() ==> coord_ok(#[trigger] grid@[kk]),
            hex_count == grid@.len(),
            hex_count64 == hex_count as u64,
            hex_count > 0,
            grass_count == gc,
            grass_count < 0x8000_0000,
            base_count == fc + wc,
            base_count < 0x1_0000_0000,
            water_part == seeds_rec(grid@, TileType::Forest, fc, 0) + seeds_rec(
                grid@,
                TileType::Water,
                wc,
                fc,
            ),
            0 <= i <= grass_count,
            seeds@ == water_part + seeds_rec(grid@, TileType::Grass, i as int, fc + wc),
        decreases grass_count - i,
    {
        let counter: u64 = base_count + i + 1;
        proof {
            assert(counter as int == (fc + wc) + (i + 1));
        }
        let index = ((counter * 7919) + i * 997) % hex_count64;
        proof {
            assert(index as int == seed_index((fc + wc) + (i + 1), i as int, grid@.len() as int));
            assert(seeds_rec(grid@, TileType::Grass, i + 1, fc + wc) == seeds_rec(
                grid@,
                TileType::Grass,
                i as int,
                fc + wc,
            ).push(
                (
                    grid@[seed_index((fc + wc) + (i + 1), i as int, grid@.len() as int)],
                    TileType::Grass,
                ),
            ));
        }
        seeds.push((grid[index as usize], TileType::Grass));
        proof {
            assert(seeds@ =~= water_part + seeds_rec(grid@, TileType::Grass, i + 1, fc + wc));
        }
        i += 1;
    }
    proof {
        assert(seeds@ == seeds_rec(grid@, TileType::Forest, fc, 0) + seeds_rec(
            grid@,
            TileType::Water,
            wc,
            fc,
        ) + seeds_rec(grid@, TileType::Grass, gc, fc + wc));
    }

    if seeds.len() == 0 {
        seeds.push((grid[0], TileType::Grass));
        proof {
            assert(seeds@ =~= seq![(grid@[0], TileType::Grass)]);
        }
    }
    proof {
        assert(seeds@ == voronoi_seeds(grid@, forest_seeds, water_seeds, grass_seeds));
        lemma_seeds_rec_ok(grid@, TileType::Forest, fc, 0);
        lemma_seeds_rec_ok(grid@, TileType::Water, wc, fc);
        lemma_seeds_rec_ok(grid@, TileType::Grass, gc, fc + wc);
        assert forall|m: int| 0 <= m < seeds@.len() implies coord_ok((#[trigger] seeds@[m]).0) by {
            let s = seeds_rec(grid@, TileType::Forest, fc, 0) + seeds_rec(
                grid@,
                TileType::Water,
                wc,
                fc,
            ) + seeds_rec(grid@, TileType::Grass, gc, fc + wc);
            if s.len() == 0 {
                assert(seeds@[m].0 == grid@[0]);
            }
        }
    }

    let mut regions: Vec<(Coord, TileType)> = Vec::new();
    let mut k: usize = 0;
    while k < hex_count
        invariant
            grid@ == hex_grid_seq(max_layer as int, center_q as int, center_r as int),
            forall|kk: int| 0 <= kk < grid@.len() ==> coord_ok(#[trigger] grid@[kk]),
            hex_count == grid@.len(),
            hex_count > 0,
            seeds@ == voronoi_seeds(grid@, forest_seeds, water_seeds, grass_seeds),
            seeds@.len() > 0,
            forall|m: int| 0 <= m < seeds@.len() ==> coord_ok((#[trigger] seeds@[m]).0),
            0 <= k <= hex_count,
            regions@ =~= voronoi_assign(grid@, seeds@).take(k as int),
        decreases hex_count - k,
    {
        let hex = grid[k];
        let mut best: (Coord, TileType) = seeds[0];
        let mut best_dist = hex_distance(hex.0, hex.1, best.0.0, best.0.1);
        let mut j: usize = 1;
        proof {
            assert(seeds@.take(1).drop_last() =~= Seq::<(Coord, TileType)>::empty());
            assert(seeds@.take(1) =~= seq![seeds@[0]]);
            assert(best == nearest_seed(seeds@.take(1), hex));
        }
        while j < seeds.len()
            invariant
                forall|m: int| 0 <= m < seeds@.len() ==> coord_ok((#[trigger] seeds@[m]).0),
                coord_ok(hex),
                1 <= j <= seeds@.len(),
                best == nearest_seed(seeds@.take(j as int), hex),
                best_dist == hex_dist(hex, best.0),
                coord_ok(best.0),
            decreases seeds@.len() - j,
        {
            let cand = seeds[j];
            let d = hex_distance(hex.0, hex.1, cand.0.0, cand.0.1);
            proof {
                assert(seeds@.take(j + 1).drop_last() =~= seeds@.take(j as int));
                assert(seeds@.take(j + 1).last() == seeds@[j as int]);
                assert(seeds@.take(j + 1).len() == j + 1);
            }
            if d < best_dist {
                best = cand;
                best_dist = d;
            }
            j += 1;
        }
        proof {
            assert(seeds@.take(seeds@.len() as int) =~= seeds@);
            assert(best == nearest_seed(seeds@, hex));
        }
        regions.push((hex, best.1));
        proof {
            assert(regions@ =~= voronoi_assign(grid@, seeds@).take(k + 1));
        }
        k += 1;
    }
    proof {
        assert(regions@ =~= voronoi_assign(grid@, seeds@));
    }
    regions
}

} // verus!
