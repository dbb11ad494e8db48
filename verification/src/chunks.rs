//! Chunk topology over an infinite hex world partitioned into fixed-radius
//! chunks: neighbor computation by offset-vector rotation, point-to-chunk
//! containment, and distance-threshold enable/disable partitioning.

use vstd::prelude::*;
use crate::geometry::Coord;
use crate::geometry::coord_ok;
use crate::geometry::hex_dist;
use crate::geometry::hex_distance;
use crate::geometry::iabs;
use crate::geometry::imax;

verus! {

/// Bound on the chunk centers, tiles and ring counts the chunk operations
/// accept; every derived coordinate then stays within the bounds of the
/// distance routines.
pub const CHUNK_BOUND: i32 = 0x0400_0000;

/// One 60-degree clockwise rotation of an axial offset vector.
pub open spec fn rot_cw(o: (int, int)) -> (int, int) {
    (o.0 + o.1, -o.0)
}

/// `n` clockwise rotations of an axial offset vector.
pub open spec fn rot_n(o: (int, int), n: nat) -> (int, int)
    decreases n,
{
    if n == 0 {
        o
    } else {
        rot_cw(rot_n(o, (n - 1) as nat))
    }
}

/// The canonical offset vector from a chunk center to one neighbor, before
/// angular alignment.
pub open spec fn chunk_base_offset(rings: int) -> (int, int) {
    if rings == 0 {
        (1, 0)
    } else {
        (rings, rings + 1)
    }
}

/// The offset from a chunk center to its `i`-th neighbor: the base offset
/// aligned by four clockwise rotations, then rotated `i` more times.
pub open spec fn chunk_neighbor_offset(rings: int, i: int) -> (int, int) {
    rot_n(chunk_base_offset(rings), (4 + i) as nat)
}

/// The `i`-th neighbor of the chunk centered at `(cq, cr)`.
pub open spec fn chunk_neighbor_at(cq: i32, cr: i32, rings: i32, i: int) -> Coord {
    (
        (cq + chunk_neighbor_offset(rings as int, i).0) as i32,
        (cr + chunk_neighbor_offset(rings as int, i).1) as i32,
    )
}

/// The size of an offset vector that rotation preserves.
pub open spec fn rot_norm(o: (int, int)) -> int {
    imax(imax(iabs(o.0), iabs(o.1)), iabs(o.0 + o.1))
}

/// Rotating an offset vector permutes the three cube components, so its
/// size is unchanged.
proof fn lemma_rot_norm(o: (int, int))
    ensures
        rot_norm(rot_cw(o)) == rot_norm(o),
{
}

/// Any number of rotations keeps the offset size.
proof fn lemma_rot_n_norm(o: (int, int), n: nat)
    ensures
        rot_norm(rot_n(o, n)) == rot_norm(o),
    decreases n,
{
    if n > 0 {
        lemma_rot_n_norm(o, (n - 1) as nat);
        lemma_rot_norm(rot_n(o, (n - 1) as nat));
    }
}

/// The chunk radius in hex distance units: radius and ring count are the
/// same unit by definition.
pub fn calculate_chunk_radius(rings: i32) -> (radius: i32)
    ensures
        radius == rings,
{
    rings
}

/// The six neighbor chunk centers of the chunk at `(center_q, center_r)`:
/// the canonical offset vector, aligned by four clockwise rotations, is
/// rotated through the six directions and added to the center.
pub fn calculate_chunk_neighbors(center_q: i32, center_r: i32, rings: i32) -> (ns: Vec<Coord>)
    requires
        -CHUNK_BOUND <= center_q <= CHUNK_BOUND,
        -CHUNK_BOUND <= center_r <= CHUNK_BOUND,
        -CHUNK_BOUND <= rings <= CHUNK_BOUND,
    ensures
        ns@.len() == 6,
        forall|i: int| 0 <= i < 6 ==> #[trigger] ns@[i] == chunk_neighbor_at(center_q, center_r, rings, i),
        forall|i: int|
            0 <= i < 6 ==> (#[trigger] ns@[i]).0 == center_q + chunk_neighbor_offset(
                rings as int,
                i,
            ).0 && ns@[i].1 == center_r + chunk_neighbor_offset(rings as int, i).1,
        forall|i: int| 0 <= i < 6 ==> coord_ok(#[trigger] ns@[i]),
{
    let mut offset_q: i32 = if rings == 0 {
        1
    } else {
        rings
    };
    let mut offset_r: i32 = if rings == 0 {
        0
    } else {
        rings + 1
    };
    proof {
        assert(rot_norm(chunk_base_offset(rings as int)) <= 2 * CHUNK_BOUND + 1);
    }
    let mut k: usize = 0;
    while k < 4
        invariant
            -CHUNK_BOUND <= rings <= CHUNK_BOUND,
            0 <= k <= 4,
            (offset_q as int, offset_r as int) == rot_n(chunk_base_offset(rings as int), k as nat),
            rot_norm(chunk_base_offset(rings as int)) <= 2 * CHUNK_BOUND + 1,
            rot_norm((offset_q as int, offset_r as int)) == rot_norm(
                chunk_base_offset(rings as int),
            ),
        decreases 4 - k,
    {
        proof {
            lemma_rot_norm((offset_q as int, offset_r as int));
            assert(rot_n(chunk_base_offset(rings as int), (k + 1) as nat) == rot_cw(
                rot_n(chunk_base_offset(rings as int), k as nat),
            ));
        }
        let next_q = offset_q + offset_r;
        let next_r = -offset_q;
        offset_q = next_q;
        offset_r = next_r;
        k += 1;
    }
    let mut ns: Vec<Coord> = Vec::new();
    let mut current_q = offset_q;
    let mut current_r = offset_r;
    let mut i: usize = 0;
    while i < 6
        invariant
            -CHUNK_BOUND <= center_q <= CHUNK_BOUND,
            -CHUNK_BOUND <= center_r <= CHUNK_BOUND,
            -CHUNK_BOUND <= rings <= CHUNK_BOUND,
            0 <= i <= 6,
            ns@.len() == i,
            (current_q as int, current_r as int) == rot_n(
                chunk_base_offset(rings as int),
                (4 + i) as nat,
            ),
            rot_norm(chunk_base_offset(rings as int)) <= 2 * CHUNK_BOUND + 1,
            rot_norm((current_q as int, current_r as int)) == rot_norm(
                chunk_base_offset(rings as int),
            ),
            forall|j: int|
                0 <= j < i ==> (#[trigger] ns@[j]).0 == center_q + chunk_neighbor_offset(
                    rings as int,
                    j,
                ).0 && ns@[j].1 == center_r + chunk_neighbor_offset(rings as int, j).1,
            forall|j: int| 0 <= j < i ==> coord_ok(#[trigger] ns@[j]),
        decreases 6 - i,
    {
        ns.push((center_q + current_q, center_r + current_r));
        proof {
            lemma_rot_norm((current_q as int, current_r as int));
            assert(rot_n(chunk_base_offset(rings as int), (4 + i + 1) as nat) == rot_cw(
                rot_n(chunk_base_offset(rings as int), (4 + i) as nat),
            ));
            assert(ns@[i as int].0 == center_q + chunk_neighbor_offset(rings as int, i as int).0);
        }
        let next_q = current_q + current_r;
        let next_r = -current_q;
        current_q = next_q;
        current_r = next_r;
        i += 1;
    }
    proof {
        assert forall|i: int| 0 <= i < 6 implies #[trigger] ns@[i] == chunk_neighbor_at(
            center_q,
            center_r,
            rings,
            i,
        ) by {
            assert(ns@[i].0 == center_q + chunk_neighbor_offset(rings as int, i).0);
        }
    }
    ns
}

/// What `find_nearest_neighbor_chunk` reports: the nearest neighbor chunk
/// center, its hex distance to the queried tile, and whether the host
/// already instantiated it.
#[derive(Clone, Copy, Debug, PartialEq, Eq)]
pub struct NeighborInfo {
    pub neighbor: Coord,
    pub distance: i32,
    pub is_instantiated: bool,
}

/// Among the six immediate neighbor chunks of the current chunk, the one
/// whose center lies nearest to the current tile; ties go to the first in
/// rotation order.
pub fn find_nearest_neighbor_chunk(
    current_chunk_q: i32,
    current_chunk_r: i32,
    current_tile_q: i32,
    current_tile_r: i32,
    rings: i32,
    existing_chunks: &Vec<Coord>,
) -> (res: Option<NeighborInfo>)
    requires
        -CHUNK_BOUND <= current_chunk_q <= CHUNK_BOUND,
        -CHUNK_BOUND <= current_chunk_r <= CHUNK_BOUND,
        -CHUNK_BOUND <= rings <= CHUNK_BOUND,
        coord_ok((current_tile_q, current_tile_r)),
    ensures
        res.is_some(),
        res matches Some(info) ==> {
            let tile = (current_tile_q, current_tile_r);
            &&& exists|i: int|
                0 <= i < 6 && info.neighbor == #[trigger] chunk_neighbor_at(
                    current_chunk_q,
                    current_chunk_r,
                    rings,
                    i,
                ) && (forall|j: int|
                    0 <= j < i ==> hex_dist(
                        tile,
                        #[trigger] chunk_neighbor_at(current_chunk_q, current_chunk_r, rings, j),
                    ) > info.distance)
            &&& info.distance == hex_dist(tile, info.neighbor)
            &&& forall|j: int|
                0 <= j < 6 ==> hex_dist(
                    tile,
                    #[trigger] chunk_neighbor_at(current_chunk_q, current_chunk_r, rings, j),
                ) >= info.distance
            &&& info.is_instantiated == existing_chunks@.contains(info.neighbor)
        },
{
    let neighbors = calculate_chunk_neighbors(current_chunk_q, current_chunk_r, rings);
    let mut best: Option<(Coord, i32)> = None;
    let mut k: usize = 0;
    while k < neighbors.len()
        invariant
            coord_ok((current_tile_q, current_tile_r)),
            neighbors@.len() == 6,
            forall|i: int|
                0 <= i < 6 ==> #[trigger] neighbors@[i] == chunk_neighbor_at(
                    current_chunk_q,
                    current_chunk_r,
                    rings,
                    i,
                ),
            forall|i: int| 0 <= i < 6 ==> coord_ok(#[trigger] neighbors@[i]),
            0 <= k <= 6,
            k == 0 ==> best is None,
            k > 0 ==> best is Some,
            best matches Some(b) ==> {
                let tile = (current_tile_q, current_tile_r);
                &&& exists|i: int|
                    0 <= i < k && b.0 == #[trigger] neighbors@[i] && (forall|j: int|
                        0 <= j < i ==> hex_dist(tile, #[trigger] neighbors@[j]) > b.1)
                &&& b.1 == hex_dist(tile, b.0)
                &&& forall|j: int| 0 <= j < k ==> hex_dist(tile, #[trigger] neighbors@[j]) >= b.1
            },
        decreases neighbors@.len() - k,
    {
        let nb = neighbors[k];
        let d = hex_distance(current_tile_q, current_tile_r, nb.0, nb.1);
        match best {
            None => {
                best = Some((nb, d));
                proof {
                    assert(best matches Some(b) ==> b.0 == neighbors@[k as int]);
                }
            },
            Some(b) => {
                if d < b.1 {
                    best = Some((nb, d));
                    proof {
                        assert(best matches Some(bb) ==> bb.0 == neighbors@[k as int]);
                    }
                } else {
                    proof {
                        let tile = (current_tile_q, current_tile_r);
                        let i = choose|i: int|
                            0 <= i < k && b.0 == #[trigger] neighbors@[i] && (forall|j: int|
                                0 <= j < i ==> hex_dist(tile, #[trigger] neighbors@[j]) > b.1);
                        assert(0 <= i < k + 1 && b.0 == neighbors@[i]);
                    }
                }
            },
        }
        k += 1;
    }
    proof {
        let tile = (current_tile_q, current_tile_r);
        if best is Some {
            let b = best->Some_0;
            let i = choose|i: int|
                0 <= i < 6 && b.0 == #[trigger] neighbors@[i] && (forall|j: int|
                    0 <= j < i ==> hex_dist(tile, #[trigger] neighbors@[j]) > b.1);
            assert(b.0 == chunk_neighbor_at(current_chunk_q, current_chunk_r, rings, i));
            assert forall|j: int| 0 <= j < i implies hex_dist(
                tile,
                #[trigger] chunk_neighbor_at(current_chunk_q, current_chunk_r, rings, j),
            ) > b.1 by {
                assert(neighbors@[j] == chunk_neighbor_at(current_chunk_q, current_chunk_r, rings, j));
            }
            assert forall|j: int| 0 <= j < 6 implies hex_dist(
                tile,
                #[trigger] chunk_neighbor_at(current_chunk_q, current_chunk_r, rings, j),
            ) >= b.1 by {
                assert(neighbors@[j] == chunk_neighbor_at(current_chunk_q, current_chunk_r, rings, j));
            }
        }
    }
    match best {
        Some(b) => {
            let inst = crate::geometry::coords_contains(existing_chunks, b.0);
            Some(NeighborInfo { neighbor: b.0, distance: b.1, is_instantiated: inst })
        },
        None => None,
    }
}

/// The chunk containing a tile: a chunk centered exactly on the tile wins
/// outright; otherwise the nearest center within `rings` of the tile, ties
/// going to the earliest in input order; none qualifying means no result.
pub fn calculate_chunk_for_tile(
    tile_q: i32,
    tile_r: i32,
    rings: i32,
    chunk_positions: &Vec<Coord>,
) -> (res: Option<Coord>)
    requires
        coord_ok((tile_q, tile_r)),
        forall|j: int| 0 <= j < chunk_positions@.len() ==> coord_ok(#[trigger] chunk_positions@[j]),
    ensures
        chunk_positions@.contains((tile_q, tile_r)) ==> res == Some((tile_q, tile_r)),
        res is None ==> forall|j: int|
            0 <= j < chunk_positions@.len() ==> hex_dist(
                (tile_q, tile_r),
                #[trigger] chunk_positions@[j],
            ) > rings,
        res matches Some(c) ==> {
            let tile = (tile_q, tile_r);
            &&& chunk_positions@.contains(c)
            &&& (c == tile || (hex_dist(tile, c) <= rings && exists|i: int|
                0 <= i < chunk_positions@.len() && c == #[trigger] chunk_positions@[i] && (forall|
                    j: int,
                |
                    0 <= j < i ==> hex_dist(tile, #[trigger] chunk_positions@[j]) > hex_dist(
                        tile,
                        c,
                    ) || hex_dist(tile, chunk_positions@[j]) > rings) && (forall|j: int|
                    0 <= j < chunk_positions@.len() ==> hex_dist(
                        tile,
                        #[trigger] chunk_positions@[j],
                    ) >= hex_dist(tile, c) || hex_dist(tile, chunk_positions@[j]) > rings)))
        },
{
    let mut best: Option<(Coord, i32)> = None;
    let mut k: usize = 0;
    while k < chunk_positions.len()
        invariant
            coord_ok((tile_q, tile_r)),
            forall|j: int|
                0 <= j < chunk_positions@.len() ==> coord_ok(#[trigger] chunk_positions@[j]),
            0 <= k <= chunk_positions@.len(),
            forall|j: int| 0 <= j < k ==> #[trigger] chunk_positions@[j] != (tile_q, tile_r),
            best is None ==> forall|j: int|
                0 <= j < k ==> hex_dist((tile_q, tile_r), #[trigger] chunk_positions@[j]) > rings,
            best matches Some(b) ==> {
                let tile = (tile_q, tile_r);
                &&& b.1 == hex_dist(tile, b.0)
                &&& 0 < b.1 <= rings
                &&& exists|i: int|
                    0 <= i < k && b.0 == #[trigger] chunk_positions@[i] && (forall|j: int|
                        0 <= j < i ==> hex_dist(tile, #[trigger] chunk_positions@[j]) > b.1
                            || hex_dist(tile, chunk_positions@[j]) > rings)
                &&& forall|j: int|
                    0 <= j < k ==> hex_dist(tile, #[trigger] chunk_positions@[j]) >= b.1
                        || hex_dist(tile, chunk_positions@[j]) > rings
            },
        decreases chunk_positions@.len() - k,
    {
        let pos = chunk_positions[k];
        let d = hex_distance(tile_q, tile_r, pos.0, pos.1);
        if d == 0 {
            proof {
                crate::geometry::lemma_hex_dist_zero((tile_q, tile_r), pos);
                assert(chunk_positions@.contains((tile_q, tile_r))) by {
                    assert(chunk_positions@[k as int] == (tile_q, tile_r));
                }
            }
            return Some(pos);
        }
        if d <= rings {
            match best {
                None => {
                    best = Some((pos, d));
                    proof {
                        assert(best matches Some(b) ==> b.0 == chunk_positions@[k as int]);
                    }
                },
                Some(b) => {
                    if d < b.1 {
                        best = Some((pos, d));
                        proof {
                            assert(best matches Some(bb) ==> bb.0 == chunk_positions@[k as int]);
                        }
                    } else {
                        proof {
                            let tile = (tile_q, tile_r);
                            let i = choose|i: int|
                                0 <= i < k && b.0 == #[trigger] chunk_positions@[i] && (forall|
                                    j: int,
                                |
                                    0 <= j < i ==> hex_dist(tile, #[trigger] chunk_positions@[j])
                                        > b.1 || hex_dist(tile, chunk_positions@[j]) > rings);
                            assert(0 <= i < k + 1 && b.0 == chunk_positions@[i]);
                        }
                    }
                },
            }
        }
        k += 1;
    }
    proof {
        if chunk_positions@.contains((tile_q, tile_r)) {
            let j = choose|j: int|
                0 <= j < chunk_positions@.len() && chunk_positions@[j] == (tile_q, tile_r);
            assert(false);
        }
    }
    match best {
        Some(b) => Some(b.0),
        None => None,
    }
}

/// The coordinates of the enabled chunks that lie beyond `max_distance`
/// from the current chunk, in input order.
pub open spec fn chunks_to_disable(cur: Coord, s: Seq<(i32, i32, bool)>, maxd: int) -> Seq<Coord>
    decreases s.len(),
{
    if s.len() == 0 {
        Seq::empty()
    } else {
        let rest = chunks_to_disable(cur, s.drop_last(), maxd);
        let t = s.last();
        if t.2 && hex_dist(cur, (t.0, t.1)) > maxd {
            rest.push((t.0, t.1))
        } else {
            rest
        }
    }
}

/// The coordinates of the disabled chunks that lie within `max_distance`
/// of the current chunk, in input order.
pub open spec fn chunks_to_enable(cur: Coord, s: Seq<(i32, i32, bool)>, maxd: int) -> Seq<Coord>
    decreases s.len(),
{
    if s.len() == 0 {
        Seq::empty()
    } else {
        let rest = chunks_to_enable(cur, s.drop_last(), maxd);
        let t = s.last();
        if !t.2 && hex_dist(cur, (t.0, t.1)) <= maxd {
            rest.push((t.0, t.1))
        } else {
            rest
        }
    }
}

/// Partition chunks by the distance threshold: enabled chunks farther than
/// `max_distance` are to be disabled, disabled chunks within it are to be
/// enabled, and chunks already in the right state appear in neither list.
pub fn disable_distant_chunks(
    current_chunk_q: i32,
    current_chunk_r: i32,
    all_chunks: &Vec<(i32, i32, bool)>,
    max_distance: i32,
) -> (res: (Vec<Coord>, Vec<Coord>))
    requires
        coord_ok((current_chunk_q, current_chunk_r)),
        forall|j: int|
            0 <= j < all_chunks@.len() ==> coord_ok(
                ((#[trigger] all_chunks@[j]).0, all_chunks@[j].1),
            ),
    ensures
        res.0@ == chunks_to_disable(
            (current_chunk_q, current_chunk_r),
            all_chunks@,
            max_distance as int,
        ),
        res.1@ == chunks_to_enable(
            (current_chunk_q, current_chunk_r),
            all_chunks@,
            max_distance as int,
        ),
{
    let mut to_disable: Vec<Coord> = Vec::new();
    let mut to_enable: Vec<Coord> = Vec::new();
    let mut k: usize = 0;
    while k < all_chunks.len()
        invariant
            coord_ok((current_chunk_q, current_chunk_r)),
            forall|j: int|
                0 <= j < all_chunks@.len() ==> coord_ok(
                    ((#[trigger] all_chunks@[j]).0, all_chunks@[j].1),
                ),
            0 <= k <= all_chunks@.len(),
            to_disable@ == chunks_to_disable(
                (current_chunk_q, current_chunk_r),
                all_chunks@.take(k as int),
                max_distance as int,
            ),
            to_enable@ == chunks_to_enable(
                (current_chunk_q, current_chunk_r),
                all_chunks@.take(k as int),
                max_distance as int,
            ),
        decreases all_chunks@.len() - k,
    {
        let t = all_chunks[k];
        proof {
            assert(all_chunks@.take(k + 1).drop_last() =~= all_chunks@.take(k as int));
            assert(all_chunks@.take(k + 1).last() == t);
        }
        let distance = hex_distance(current_chunk_q, current_chunk_r, t.0, t.1);
        if distance > max_distance {
            if t.2 {
                to_disable.push((t.0, t.1));
            }
        } else {
            if !t.2 {
                to_enable.push((t.0, t.1));
            }
        }
        k += 1;
    }
    proof {
        assert(all_chunks@.take(all_chunks@.len() as int) =~= all_chunks@);
    }
    (to_disable, to_enable)
}

} // verus!
