//! Road-adjacency queries and deterministic building placement: candidate
//! sites are unoccupied valid-terrain tiles with enough adjacent roads,
//! shuffled reproducibly, then taken up to the target count.

use vstd::prelude::*;

use crate::geometry::Coord;
use crate::geometry::adjacent;
use crate::geometry::coord_ok;
use crate::geometry::get_hex_neighbors;
use crate::geometry::neighbor_at;
use crate::coordset::CoordSet;
use crate::shuffle::spec_shuffle;
use crate::shuffle::shuffle_array;

verus! {

/// Lexicographic order on coordinates.
pub open spec fn coord_lt(a: Coord, b: Coord) -> bool {
    a.0 < b.0 || (a.0 == b.0 && a.1 < b.1)
}

/// Strictly ascending coordinate sequences: sorted, and free of duplicates.
pub open spec fn strictly_sorted(s: Seq<Coord>) -> bool {
    forall|i: int, j: int| 0 <= i < j < s.len() ==> coord_lt(#[trigger] s[i], #[trigger] s[j])
}

/// The `i`-th neighbor of `c` as a coordinate.
pub open spec fn nb_coord(c: Coord, i: int) -> Coord {
    (neighbor_at(c, i).0 as i32, neighbor_at(c, i).1 as i32)
}

/// How many of the first `n` neighbors of `c` lie in `s`.
pub open spec fn adj_count_upto(s: Set<Coord>, c: Coord, n: int) -> int
    decreases n,
{
    if n <= 0 {
        0
    } else {
        adj_count_upto(s, c, n - 1) + if s.contains(nb_coord(c, n - 1)) {
            1int
        } else {
            0int
        }
    }
}

/// How many of the six neighbors of `c` lie in `s`.
pub open spec fn spec_count_adjacent(s: Set<Coord>, c: Coord) -> int {
    adj_count_upto(s, c, 6)
}

/// For an in-bounds coordinate, adjacency is exactly membership among its
/// six enumerated neighbors.
pub proof fn lemma_adjacent_is_some_neighbor(a: Coord, b: Coord)
    requires
        coord_ok(a),
    ensures
        adjacent(a, b) <==> exists|i: int| 0 <= i < 6 && b == #[trigger] nb_coord(a, i),
{
    if adjacent(a, b) {
        let i = choose|i: int| 0 <= i < 6 && #[trigger] neighbor_at(a, i) == (b.0 as int, b.1 as int);
        assert(b == nb_coord(a, i));
    }
    if exists|i: int| 0 <= i < 6 && b == #[trigger] nb_coord(a, i) {
        let i = choose|i: int| 0 <= i < 6 && b == #[trigger] nb_coord(a, i);
        assert(neighbor_at(a, i) == (b.0 as int, b.1 as int));
    }
}

/// Count how many of the six neighbors of `(hex_q, hex_r)` are roads.
pub fn count_adjacent_roads(hex_q: i32, hex_r: i32, roads: &CoordSet) -> (count: i32)
    requires
        coord_ok((hex_q, hex_r)),
    ensures
        count == spec_count_adjacent(roads@, (hex_q, hex_r)),
        0 <= count <= 6,
{
    let ns = get_hex_neighbors(hex_q, hex_r);
    let mut count: i32 = 0;
    let mut k: usize = 0;
    while k < 6
        invariant
            coord_ok((hex_q, hex_r)),
            ns@.len() == 6,
            forall|i: int|
                0 <= i < 6 ==> (#[trigger] ns@[i]).0 == neighbor_at((hex_q, hex_r), i).0 && ns@[i].1
                    == neighbor_at((hex_q, hex_r), i).1,
            0 <= k <= 6,
            count == adj_count_upto(roads@, (hex_q, hex_r), k as int),
            0 <= count <= k,
        decreases 6 - k,
    {
        let nb = ns[k];
        proof {
            assert(nb == nb_coord((hex_q, hex_r), k as int));
        }
        if roads.contains(nb) {
            count += 1;
        }
        k += 1;
    }
    count
}

/// Insert a fresh coordinate into a strictly sorted list, keeping it
/// strictly sorted.
fn sorted_insert(v: &mut Vec<Coord>, c: Coord)
    requires
        strictly_sorted(old(v)@),
        !old(v)@.contains(c),
    ensures
        strictly_sorted(final(v)@),
        final(v)@.len() == old(v)@.len() + 1,
        forall|x: Coord| final(v)@.contains(x) <==> old(v)@.contains(x) || x == c,
{
    let mut k: usize = 0;
    while k < v.len() && (v[k].0 < c.0 || (v[k].0 == c.0 && v[k].1 < c.1))
        invariant
            v@ == old(v)@,
            0 <= k <= v@.len(),
            forall|j: int| 0 <= j < k ==> coord_lt(#[trigger] v@[j], c),
        decreases v@.len() - k,
    {
        k += 1;
    }
    proof {
        if k < v@.len() {
            assert(v@.contains(v@[k as int]));
            assert(v@[k as int] != c);
            assert(coord_lt(c, v@[k as int]));
        }
    }
    v.insert(k, c);
    proof {
        let pre = old(v)@;
        let post = v@;
        pre.insert_ensures(k as int, c);
        assert forall|a: int, b: int|
            0 <= a < b < post.len() implies coord_lt(post[a], post[b]) by {
            if b < k {
                assert(post[a] == pre[a] && post[b] == pre[b]);
            } else if a < k && b == k {
                assert(post[a] == pre[a] && post[b] == c);
            } else if a < k {
                assert(post[a] == pre[a] && post[b] == pre[b - 1]);
                if k < pre.len() {
                    if a < k && k <= b - 1 {
                        if b - 1 == k {
                            assert(coord_lt(pre[a], c) && coord_lt(c, pre[k as int]));
                        } else {
                            assert(coord_lt(pre[a], pre[b - 1]));
                        }
                    }
                }
            } else if a == k {
                assert(post[a] == c && post[b] == pre[b - 1]);
                assert(coord_lt(c, pre[k as int]));
                if b - 1 > k {
                    assert(coord_lt(pre[k as int], pre[b - 1]));
                }
            } else {
                assert(post[a] == pre[a - 1] && post[b] == pre[b - 1]);
            }
        }
        assert forall|x: Coord| post.contains(x) implies pre.contains(x) || x == c by {
            let j = choose|j: int| 0 <= j < post.len() && post[j] == x;
            if j < k {
                assert(pre[j] == x);
            } else if j > k {
                assert(pre[j - 1] == x);
            }
        }
        assert forall|x: Coord| pre.contains(x) || x == c implies post.contains(x) by {
            if x == c {
                assert(post[k as int] == c);
            } else {
                let j = choose|j: int| 0 <= j < pre.len() && pre[j] == x;
                if j < k {
                    assert(post[j] == x);
                } else {
                    assert(post[j + 1] == x);
                }
            }
        }
    }
}

/// The members of a coordinate set, in strictly ascending coordinate order.
pub fn sorted_coords(set: &CoordSet) -> (out: Vec<Coord>)
    requires
        set.wf(),
    ensures
        strictly_sorted(out@),
        forall|c: Coord| out@.contains(c) <==> set@.contains(c),
{
    let mut out: Vec<Coord> = Vec::new();
    let total = set.len();
    let mut k: usize = 0;
    while k < total
        invariant
            set.wf(),
            total == set.items().len(),
            0 <= k <= total,
            strictly_sorted(out@),
            forall|x: Coord| out@.contains(x) <==> set.items().take(k as int).contains(x),
        decreases total - k,
    {
        let c = set.index_at(k);
        proof {
            set.lemma_items();
            assert(!set.items().take(k as int).contains(c)) by {
                if set.items().take(k as int).contains(c) {
                    let j = choose|j: int|
                        0 <= j < k && #[trigger] set.items().take(k as int)[j] == c;
                    assert(set.items()[j] == set.items()[k as int]);
                }
            }
            assert(!out@.contains(c));
        }
        sorted_insert(&mut out, c);
        proof {
            assert forall|x: Coord| out@.contains(x) <==> set.items().take(k + 1).contains(x) by {
                if out@.contains(x) {
                    if x == c {
                        assert(set.items().take(k + 1)[k as int] == x);
                    } else {
                        let j = choose|j: int|
                            0 <= j < k && #[trigger] set.items().take(k as int)[j] == x;
                        assert(set.items().take(k + 1)[j] == x);
                    }
                } else {
                    if set.items().take(k + 1).contains(x) {
                        let j = choose|j: int|
                            0 <= j < k + 1 && #[trigger] set.items().take(k + 1)[j] == x;
                        if j < k {
                            assert(set.items().take(k as int)[j] == x);
                        }
                        assert(out@.contains(x));
                    }
                }
            }
        }
        k += 1;
    }
    proof {
        set.lemma_items();
        assert(set.items().take(set.items().len() as int) =~= set.items());
    }
    out
}

/// A coordinate the road network can grow buildings next to: valid terrain,
/// not itself a road, unoccupied, and adjacent to at least one road.
pub open spec fn is_adjacent_candidate(
    roads: Set<Coord>,
    terrain: Set<Coord>,
    occupied: Set<Coord>,
    c: Coord,
) -> bool {
    terrain.contains(c) && !roads.contains(c) && !occupied.contains(c) && exists|r: Coord|
        #[trigger] roads.contains(r) && adjacent(r, c)
}

/// All valid-terrain coordinates adjacent to the road network that are not
/// roads and not occupied, in strictly ascending coordinate order.
pub fn get_adjacent_valid_terrain(
    road_network: &Vec<Coord>,
    valid_terrain: &Vec<Coord>,
    occupied: &Vec<Coord>,
) -> (adj: Vec<Coord>)
    requires
        forall|i: int| 0 <= i < road_network@.len() ==> coord_ok(#[trigger] road_network@[i]),
    ensures
        strictly_sorted(adj@),
        forall|c: Coord|
            adj@.contains(c) <==> is_adjacent_candidate(
                road_network@.to_set(),
                valid_terrain@.to_set(),
                occupied@.to_set(),
                c,
            ),
{
    let roads_set = CoordSet::from_vec(road_network);
    let terrain_set = CoordSet::from_vec(valid_terrain);
    let occupied_set = CoordSet::from_vec(occupied);
    let ghost rs = road_network@.to_set();
    let ghost ts = valid_terrain@.to_set();
    let ghost os = occupied@.to_set();
    let mut found = CoordSet::new();
    let mut i: usize = 0;
    while i < road_network.len()
        invariant
            forall|jj: int| 0 <= jj < road_network@.len() ==> coord_ok(#[trigger] road_network@[jj]),
            roads_set.wf() && roads_set@ == road_network@.to_set(),
            terrain_set.wf() && terrain_set@ == valid_terrain@.to_set(),
            occupied_set.wf() && occupied_set@ == occupied@.to_set(),
            0 <= i <= road_network@.len(),
            found.wf(),
            forall|c: Coord|
                found@.contains(c) <==> (valid_terrain@.to_set().contains(c)
                    && !road_network@.to_set().contains(c) && !occupied@.to_set().contains(c)
                    && exists|jj: int|
                    0 <= jj < i && adjacent(#[trigger] road_network@[jj], c)),
        decreases road_network@.len() - i,
    {
        let road = road_network[i];
        let ns = get_hex_neighbors(road.0, road.1);
        let mut k: usize = 0;
        while k < 6
            invariant
                forall|jj: int|
                    0 <= jj < road_network@.len() ==> coord_ok(#[trigger] road_network@[jj]),
                roads_set.wf() && roads_set@ == road_network@.to_set(),
                terrain_set.wf() && terrain_set@ == valid_terrain@.to_set(),
                occupied_set.wf() && occupied_set@ == occupied@.to_set(),
                0 <= i < road_network@.len(),
                road == road_network@[i as int],
                ns@.len() == 6,
                forall|m: int|
                    0 <= m < 6 ==> (#[trigger] ns@[m]).0 == neighbor_at(road, m).0 && ns@[m].1
                        == neighbor_at(road, m).1,
                0 <= k <= 6,
                found.wf(),
                forall|c: Coord|
                    found@.contains(c) <==> (valid_terrain@.to_set().contains(c)
                        && !road_network@.to_set().contains(c) && !occupied@.to_set().contains(c)
                        && ((exists|jj: int|
                        0 <= jj < i && adjacent(#[trigger] road_network@[jj], c)) || (exists|m: int|
                        0 <= m < k && c == #[trigger] nb_coord(road, m)))),
            decreases 6 - k,
        {
            let nb = ns[k];
            proof {
                assert(nb == nb_coord(road, k as int));
            }
            if !roads_set.contains(nb) && !occupied_set.contains(nb) && terrain_set.contains(nb) {
                found.insert(nb);
            }
            proof {
                assert forall|c: Coord| found@.contains(c) implies (valid_terrain@.to_set().contains(
                    c,
                ) && !road_network@.to_set().contains(c) && !occupied@.to_set().contains(c) && ((
                exists|jj: int| 0 <= jj < i && adjacent(#[trigger] road_network@[jj], c)) || (
                exists|m: int| 0 <= m < k + 1 && c == #[trigger] nb_coord(road, m)))) by {
                    if c == nb {
                        assert(c == nb_coord(road, k as int));
                    }
                }
            }
            k += 1;
        }
        proof {
            assert forall|c: Coord|
                found@.contains(c) <==> (valid_terrain@.to_set().contains(c)
                    && !road_network@.to_set().contains(c) && !occupied@.to_set().contains(c)
                    && exists|jj: int|
                    0 <= jj < i + 1 && adjacent(#[trigger] road_network@[jj], c)) by {
                if found@.contains(c) {
                    if exists|m: int| 0 <= m < 6 && c == #[trigger] nb_coord(road, m) {
                        lemma_adjacent_is_some_neighbor(road, c);
                        assert(adjacent(road_network@[i as int], c));
                    }
                }
                if valid_terrain@.to_set().contains(c) && !road_network@.to_set().contains(c)
                    && !occupied@.to_set().contains(c) && exists|jj: int|
                    0 <= jj < i + 1 && adjacent(#[trigger] road_network@[jj], c) {
                    let jj = choose|jj: int|
                        0 <= jj < i + 1 && adjacent(#[trigger] road_network@[jj], c);
                    if jj == i {
                        lemma_adjacent_is_some_neighbor(road, c);
                    }
                }
            }
        }
        i += 1;
    }
    let adj = sorted_coords(&found);
    proof {
        assert forall|c: Coord|
            adj@.contains(c) <==> is_adjacent_candidate(
                road_network@.to_set(),
                valid_terrain@.to_set(),
                occupied@.to_set(),
                c,
            ) by {
            if adj@.contains(c) {
                assert(found@.contains(c));
                let jj = choose|jj: int|
                    0 <= jj < road_network@.len() && adjacent(#[trigger] road_network@[jj], c);
                assert(road_network@.contains(road_network@[jj]));
                assert(road_network@.to_set().contains(road_network@[jj]));
            }
            if is_adjacent_candidate(
                road_network@.to_set(),
                valid_terrain@.to_set(),
                occupied@.to_set(),
                c,
            ) {
                let r = choose|r: Coord|
                    #[trigger] road_network@.to_set().contains(r) && adjacent(r, c);
                let jj = choose|jj: int|
                    0 <= jj < road_network@.len() && #[trigger] road_network@[jj] == r;
                assert(adjacent(road_network@[jj], c));
                assert(found@.contains(c));
            }
        }
    }
    adj
}

/// The building sites eligible under the rules: unoccupied valid-terrain
/// tiles with at least `min_adj` adjacent roads, in terrain order.
pub open spec fn building_candidates(
    terrain: Seq<Coord>,
    roads: Set<Coord>,
    occupied: Set<Coord>,
    min_adj: int,
) -> Seq<Coord>
    decreases terrain.len(),
{
    if terrain.len() == 0 {
        Seq::empty()
    } else {
        let rest = building_candidates(terrain.drop_last(), roads, occupied, min_adj);
        let c = terrain.last();
        if !occupied.contains(c) && spec_count_adjacent(roads, c) >= min_adj {
            rest.push(c)
        } else {
            rest
        }
    }
}

/// Place buildings: gather the eligible sites, shuffle them with the
/// deterministic content-seeded shuffle, and keep the first
/// `min(target_count, available)` of them.
pub fn generate_building_placement(
    valid_terrain: &Vec<Coord>,
    road_network: &Vec<Coord>,
    occupied: &Vec<Coord>,
    min_adjacent_roads: i32,
    target_count: i32,
) -> (placed: Vec<Coord>)
    requires
        forall|i: int| 0 <= i < valid_terrain@.len() ==> coord_ok(#[trigger] valid_terrain@[i]),
        target_count >= 0,
    ensures
        ({
            let cands = building_candidates(
                valid_terrain@,
                road_network@.to_set(),
                occupied@.to_set(),
                min_adjacent_roads as int,
            );
            let chosen = if target_count as int <= cands.len() {
                target_count as int
            } else {
                cands.len() as int
            };
            placed@ == spec_shuffle(cands).take(chosen)
        }),
{
    let roads_set = CoordSet::from_vec(road_network);
    let occupied_set = CoordSet::from_vec(occupied);
    let mut available: Vec<Coord> = Vec::new();
    let mut i: usize = 0;
    while i < valid_terrain.len()
        invariant
            forall|jj: int| 0 <= jj < valid_terrain@.len() ==> coord_ok(#[trigger] valid_terrain@[jj]),
            roads_set.wf() && roads_set@ == road_network@.to_set(),
            occupied_set.wf() && occupied_set@ == occupied@.to_set(),
            0 <= i <= valid_terrain@.len(),
            available@ == building_candidates(
                valid_terrain@.take(i as int),
                road_network@.to_set(),
                occupied@.to_set(),
                min_adjacent_roads as int,
            ),
        decreases valid_terrain@.len() - i,
    {
        let c = valid_terrain[i];
        proof {
            assert(valid_terrain@.take(i + 1).drop_last() =~= valid_terrain@.take(i as int));
            assert(valid_terrain@.take(i + 1).last() == c);
        }
        if !occupied_set.contains(c) {
            let adj = count_adjacent_roads(c.0, c.1, &roads_set);
            if adj >= min_adjacent_roads {
                available.push(c);
            }
        }
        i += 1;
    }
    proof {
        assert(valid_terrain@.take(valid_terrain@.len() as int) =~= valid_terrain@);
    }
    let ghost cands = available@;
    let shuffled = shuffle_array(available);
    let count: usize = if (target_count as usize) < shuffled.len() {
        target_count as usize
    } else {
        shuffled.len()
    };
    let mut placed: Vec<Coord> = Vec::new();
    let mut k: usize = 0;
    while k < count
        invariant
            count <= shuffled@.len(),
            shuffled@ == spec_shuffle(cands),
            0 <= k <= count,
            placed@ == spec_shuffle(cands).take(k as int),
        decreases count - k,
    {
        proof {
            assert(shuffled@.take(k + 1).drop_last() =~= shuffled@.take(k as int));
        }
        placed.push(shuffled[k]);
        proof {
            assert(placed@ =~= shuffled@.take(k + 1));
        }
        k += 1;
    }
    placed
}

} // verus!
