//! The road network builder: a growing tree that stitches seed points
//! together with shortest paths and then densifies toward a target size by
//! always attaching the nearest reachable point.  The output is one
//! connected network by construction.

use vstd::prelude::*;

use crate::geometry::Coord;
use crate::geometry::adjacent;
use crate::geometry::coord_ok;
use crate::geometry::coords_contains;
use crate::geometry::hex_dist;
use crate::geometry::hex_distance;
use crate::coordset::CoordSet;
use crate::astar::hex_astar;
use crate::astar::is_path;
use crate::astar::reachable;
use crate::astar::set_connected;
use crate::astar::lemma_reachable_refl;
use crate::astar::lemma_reachable_monotone;
use crate::astar::lemma_reachable_symmetric;
use crate::astar::lemma_reachable_transitive;
use crate::buildings::sorted_coords;
use crate::buildings::strictly_sorted;

verus! {

/// The nearest member of a set to a point, with its distance; ties go to
/// the earliest member in the set's enumeration order.  No result exactly
/// when the set is empty.
pub fn find_nearest_in_set(point: Coord, connected_set: &CoordSet) -> (res: Option<(Coord, i32)>)
    requires
        connected_set.wf(),
        coord_ok(point),
        forall|x: Coord| connected_set@.contains(x) ==> coord_ok(x),
    ensures
        res.is_some() <==> connected_set@.len() != 0,
        res matches Some(b) ==> connected_set@.contains(b.0) && b.1 == hex_dist(point, b.0) && (
        forall|x: Coord| connected_set@.contains(x) ==> hex_dist(point, x) >= b.1) && (exists|
            i: int,
        |
            0 <= i < connected_set.items().len() && b.0 == #[trigger] connected_set.items()[i] && (
            forall|j: int|
                0 <= j < i ==> hex_dist(point, #[trigger] connected_set.items()[j]) > b.1)),
{
    let total = connected_set.len();
    let mut best: Option<(Coord, i32)> = None;
    let mut k: usize = 0;
    while k < total
        invariant
            connected_set.wf(),
            coord_ok(point),
            forall|x: Coord| connected_set@.contains(x) ==> coord_ok(x),
            total == connected_set.items().len(),
            0 <= k <= total,
            k == 0 ==> best is None,
            k > 0 ==> best is Some,
            best matches Some(b) ==> connected_set@.contains(b.0) && b.1 == hex_dist(point, b.0)
                && (forall|j: int|
                0 <= j < k ==> hex_dist(point, #[trigger] connected_set.items()[j]) >= b.1) && (
            exists|i: int|
                0 <= i < k && b.0 == #[trigger] connected_set.items()[i] && (forall|j: int|
                    0 <= j < i ==> hex_dist(point, #[trigger] connected_set.items()[j]) > b.1)),
        decreases total - k,
    {
        let c = connected_set.index_at(k);
        let d = hex_distance(point.0, point.1, c.0, c.1);
        match best {
            None => {
                best = Some((c, d));
                proof {
                    assert(best matches Some(b) ==> b.0 == connected_set.items()[k as int]);
                }
            },
            Some(b) => {
                if d < b.1 {
                    best = Some((c, d));
                    proof {
                        assert(best matches Some(bb) ==> bb.0 == connected_set.items()[k as int]);
                    }
                } else {
                    proof {
                        let i = choose|i: int|
                            0 <= i < k && b.0 == #[trigger] connected_set.items()[i] && (forall|
                                j: int,
                            |
                                0 <= j < i ==> hex_dist(point, #[trigger] connected_set.items()[j])
                                    > b.1);
                        assert(0 <= i < k + 1 && b.0 == connected_set.items()[i]);
                    }
                }
            },
        }
        k += 1;
    }
    proof {
        connected_set.lemma_items();
        if best is Some {
            let b = best->Some_0;
            assert forall|x: Coord| connected_set@.contains(x) implies hex_dist(point, x) >= b.1 by {
                let j = choose|j: int|
                    0 <= j < connected_set.items().len() && #[trigger] connected_set.items()[j]
                        == x;
                assert(hex_dist(point, connected_set.items()[j]) >= b.1);
            }
        }
    }
    best
}

/// Every coordinate of the terrain that the network does not hold and that
/// is no longer pending was dropped because the network cannot reach it.
pub open spec fn dropped_unreachable(eff: Set<Coord>, conn: Set<Coord>, un: Set<Coord>) -> bool {
    forall|x: Coord, y: Coord|
        #![trigger conn.contains(y), un.contains(x)]
        eff.contains(x) && !conn.contains(x) && !un.contains(x) && conn.contains(y)
            ==> !reachable(eff, y, x)
}

/// A point one member of a mutually connected set cannot reach through the
/// terrain, no member can reach.
proof fn lemma_drop_point(eff: Set<Coord>, conn: Set<Coord>, u: Coord, cn: Coord)
    requires
        set_connected(conn),
        conn.subset_of(eff),
        conn.contains(cn),
        !reachable(eff, cn, u),
    ensures
        forall|y: Coord| conn.contains(y) ==> !reachable(eff, y, u),
{
    assert forall|y: Coord| conn.contains(y) implies !reachable(eff, y, u) by {
        if reachable(eff, y, u) {
            assert(reachable(conn, cn, y));
            lemma_reachable_monotone(conn, eff, cn, y);
            lemma_reachable_transitive(eff, cn, y, u);
        }
    }
}

/// Growing the network (every point that left the pending set joined the
/// network) keeps every dropped coordinate unreachable.
proof fn lemma_drop_preserved(
    eff: Set<Coord>,
    conn0: Set<Coord>,
    conn1: Set<Coord>,
    un0: Set<Coord>,
    un1: Set<Coord>,
    anchor: Coord,
)
    requires
        dropped_unreachable(eff, conn0, un0),
        conn0.subset_of(conn1),
        conn1.subset_of(eff),
        set_connected(conn1),
        un1.subset_of(un0),
        forall|x: Coord| un0.contains(x) && !un1.contains(x) ==> conn1.contains(x),
        conn0.contains(anchor),
    ensures
        dropped_unreachable(eff, conn1, un1),
{
    assert forall|x: Coord, y: Coord|
        #![trigger conn1.contains(y), un1.contains(x)]
        eff.contains(x) && !conn1.contains(x) && !un1.contains(x) && conn1.contains(y) implies
        !reachable(eff, y, x) by {
        assert(!un0.contains(x));
        assert(!conn0.contains(x));
        assert(!reachable(eff, anchor, x));
        if reachable(eff, y, x) {
            assert(reachable(conn1, anchor, y));
            lemma_reachable_monotone(conn1, eff, anchor, y);
            lemma_reachable_transitive(eff, anchor, y, x);
        }
    }
}

/// Inserting a coordinate that the grown set can reach keeps the set
/// mutually connected.
proof fn lemma_connected_insert(conn: Set<Coord>, c: Coord, anchor: Coord)
    requires
        set_connected(conn),
        conn.contains(anchor),
        reachable(conn.insert(c), anchor, c),
    ensures
        set_connected(conn.insert(c)),
{
    let conn1 = conn.insert(c);
    assert forall|a: Coord, b: Coord|
        conn1.contains(a) && conn1.contains(b) implies #[trigger] reachable(conn1, a, b) by {
        assert(reachable(conn1, anchor, a)) by {
            if a != c {
                assert(reachable(conn, anchor, a));
                lemma_reachable_monotone(conn, conn1, anchor, a);
            }
        }
        assert(reachable(conn1, anchor, b)) by {
            if b != c {
                assert(reachable(conn, anchor, b));
                lemma_reachable_monotone(conn, conn1, anchor, b);
            }
        }
        lemma_reachable_symmetric(conn1, anchor, a);
        lemma_reachable_transitive(conn1, a, anchor, b);
    }
}

/// Merge a found path into the network: every coordinate on it joins the
/// connected set and leaves the pending set.  The path starts at a network
/// member, so the network stays mutually connected.
fn merge_path(
    connected: &mut CoordSet,
    unconnected: &mut CoordSet,
    path: &Vec<Coord>,
    Ghost(eff): Ghost<Set<Coord>>,
)
    requires
        old(connected).wf(),
        old(unconnected).wf(),
        path@.len() >= 1,
        is_path(path@, eff, path@[0], path@[path@.len() - 1]),
        old(connected)@.contains(path@[0]),
        set_connected(old(connected)@),
        old(connected)@.subset_of(eff),
    ensures
        final(connected).wf(),
        final(unconnected).wf(),
        set_connected(final(connected)@),
        final(connected)@ == old(connected)@.union(path@.to_set()),
        final(connected)@.subset_of(eff),
        old(connected)@.subset_of(final(connected)@),
        final(unconnected)@ == old(unconnected)@.difference(path@.to_set()),
{
    let mut k: usize = 0;
    while k < path.len()
        invariant
            connected.wf(),
            unconnected.wf(),
            path@.len() >= 1,
            is_path(path@, eff, path@[0], path@[path@.len() - 1]),
            old(connected)@.contains(path@[0]),
            old(connected)@.subset_of(eff),
            0 <= k <= path@.len(),
            connected@ == old(connected)@.union(path@.take(k as int).to_set()),
            unconnected@ == old(unconnected)@.difference(path@.take(k as int).to_set()),
            set_connected(connected@),
            connected@.subset_of(eff),
        decreases path@.len() - k,
    {
        let c = path[k];
        proof {
            assert(path@.take(k + 1).drop_last() =~= path@.take(k as int));
            path@.take(k as int).lemma_push_to_set_commute(c);
            let conn1 = connected@.insert(c);
            let q = path@.subrange(0, k + 1);
            assert forall|m: int| 0 <= m < q.len() implies conn1.contains(#[trigger] q[m]) by {
                assert(q[m] == path@[m]);
                if m < k {
                    assert(path@.take(k as int)[m] == path@[m]);
                    assert(path@.take(k as int).contains(path@[m]));
                    assert(path@.take(k as int).to_set().contains(path@[m]));
                }
            }
            assert forall|m: int| 0 <= m < q.len() - 1 implies adjacent(
                #[trigger] q[m],
                q[m + 1],
            ) by {
                assert(q[m] == path@[m] && q[m + 1] == path@[m + 1]);
                assert(adjacent(path@[m], path@[m + 1]));
            }
            assert(is_path(q, conn1, path@[0], c));
            assert(reachable(conn1, path@[0], c));
            assert(connected@.contains(path@[0]));
            lemma_connected_insert(connected@, c, path@[0]);
            assert(eff.contains(path@[k as int]));
        }
        connected.insert(c);
        unconnected.remove(c);
        proof {
            assert(connected@ =~= old(connected)@.union(path@.take(k + 1).to_set()));
            assert(unconnected@ =~= old(unconnected)@.difference(path@.take(k + 1).to_set()));
        }
        k += 1;
    }
    proof {
        assert(path@.take(path@.len() as int) =~= path@);
    }
}

/// Build a road network by growing a single connected tree.  Seeds that lie
/// in the effective terrain (the valid terrain minus the occupied cells)
/// are stitched together first, in input order, each joined to the nearest
/// already-connected point by a shortest path; then the network densifies
/// by repeatedly attaching the nearest pending terrain point, until the
/// target count is met or nothing reachable remains.  The result is sorted,
/// free of duplicates, lies in the effective terrain, and is mutually
/// connected through itself; it falls short of the target only when every
/// terrain coordinate outside it is unreachable from it.
#[verifier::rlimit(100)]
pub fn generate_road_network_growing_tree(
    seeds: &Vec<Coord>,
    valid_terrain: &Vec<Coord>,
    occupied: &Vec<Coord>,
    target_count: i32,
) -> (roads: Vec<Coord>)
    requires
        forall|i: int| 0 <= i < seeds@.len() ==> coord_ok(#[trigger] seeds@[i]),
        forall|i: int| 0 <= i < valid_terrain@.len() ==> coord_ok(#[trigger] valid_terrain@[i]),
        valid_terrain@.len() < 0x7fff_ffff,
    ensures
        ({
            let eff = valid_terrain@.to_set().difference(occupied@.to_set());
            &&& strictly_sorted(roads@)
            &&& forall|c: Coord| roads@.contains(c) ==> eff.contains(c)
            &&& set_connected(roads@.to_set())
            &&& (exists|i: int| 0 <= i < seeds@.len() && eff.contains(#[trigger] seeds@[i]))
                ==> roads@.len() >= 1
            &&& (roads@.len() < target_count ==> forall|x: Coord, y: Coord|
                #![trigger reachable(eff, y, x)]
                eff.contains(x) && !roads@.to_set().contains(x) && roads@.to_set().contains(y)
                    ==> !reachable(eff, y, x))
        }),
{
    let ghost eff = valid_terrain@.to_set().difference(occupied@.to_set());
    let mut eff_vec: Vec<Coord> = Vec::new();
    let mut i: usize = 0;
    while i < valid_terrain.len()
        invariant
            forall|j: int| 0 <= j < valid_terrain@.len() ==> coord_ok(#[trigger] valid_terrain@[j]),
            0 <= i <= valid_terrain@.len(),
            forall|c: Coord|
                eff_vec@.contains(c) <==> (valid_terrain@.take(i as int).contains(c)
                    && !occupied@.contains(c)),
        decreases valid_terrain@.len() - i,
    {
        let c = valid_terrain[i];
        let skip = coords_contains(occupied, c);
        let ghost pre = eff_vec@;
        if !skip {
            eff_vec.push(c);
        }
        proof {
            assert forall|x: Coord|
                eff_vec@.contains(x) implies (valid_terrain@.take(i + 1).contains(x)
                && !occupied@.contains(x)) by {
                if !skip && x == c {
                    assert(valid_terrain@.take(i + 1)[i as int] == x);
                } else {
                    assert(pre.contains(x)) by {
                        if !skip {
                            let j2 = choose|j2: int|
                                0 <= j2 < eff_vec@.len() && eff_vec@[j2] == x;
                            assert(j2 < pre.len());
                            assert(pre[j2] == x);
                        }
                    }
                    assert(valid_terrain@.take(i as int).contains(x) && !occupied@.contains(x));
                    let j = choose|j: int|
                        0 <= j < i && #[trigger] valid_terrain@.take(i as int)[j] == x;
                    assert(valid_terrain@.take(i + 1)[j] == x);
                }
            }
            assert forall|x: Coord|
                valid_terrain@.take(i + 1).contains(x) && !occupied@.contains(x) implies eff_vec@
                .contains(x) by {
                let j = choose|j: int|
                    0 <= j < i + 1 && #[trigger] valid_terrain@.take(i + 1)[j] == x;
                if j < i {
                    assert(valid_terrain@.take(i as int)[j] == x);
                    assert(valid_terrain@.take(i as int).contains(x));
                    assert(pre.contains(x));
                    if !skip {
                        let j3 = choose|j3: int| 0 <= j3 < pre.len() && pre[j3] == x;
                        assert(eff_vec@[j3] == x);
                    }
                } else {
                    assert(x == c);
                    assert(!skip);
                    assert(eff_vec@[eff_vec@.len() - 1] == c);
                }
            }
        }
        i += 1;
    }
    proof {
        assert(valid_terrain@.take(valid_terrain@.len() as int) =~= valid_terrain@);
    }
    let terrain_set = CoordSet::from_vec(&eff_vec);
    let mut connected = CoordSet::new();
    let mut unconnected = CoordSet::from_vec(&eff_vec);
    proof {
        broadcast use vstd::seq_lib::seq_to_set_is_finite;

        assert forall|c: Coord| eff_vec@.to_set().contains(c) <==> eff.contains(c) by {
            assert(eff_vec@.contains(c) <==> (valid_terrain@.contains(c) && !occupied@.contains(
                c,
            )));
        }
        assert(terrain_set@ =~= eff);
        assert(unconnected@ =~= eff);
        valid_terrain@.lemma_cardinality_of_set();
        vstd::set_lib::lemma_len_subset(eff, valid_terrain@.to_set());
        assert(eff.len() < 0x7fff_ffff);
        assert forall|x: Coord| eff.contains(x) implies coord_ok(x) by {
            let j = choose|j: int| 0 <= j < valid_terrain@.len() && valid_terrain@[j] == x;
            assert(coord_ok(valid_terrain@[j]));
        }
    }
    // Phase 1: stitch the seeds together in input order.
    let mut si: usize = 0;
    while si < seeds.len()
        invariant
            forall|j: int| 0 <= j < seeds@.len() ==> coord_ok(#[trigger] seeds@[j]),
            terrain_set.wf(),
            terrain_set@ == eff,
            eff.finite(),
            eff.len() < 0x7fff_ffff,
            forall|x: Coord| eff.contains(x) ==> coord_ok(x),
            connected.wf(),
            unconnected.wf(),
            set_connected(connected@),
            connected@.subset_of(eff),
            unconnected@.subset_of(eff),
            dropped_unreachable(eff, connected@, unconnected@),
            connected@.len() == 0 ==> unconnected@ == eff,
            0 <= si <= seeds@.len(),
            (exists|j: int| 0 <= j < si && eff.contains(#[trigger] seeds@[j])) ==> connected@.len()
                >= 1,
        decreases seeds@.len() - si,
    {
        let sd = seeds[si];
        if terrain_set.contains(sd) {
            if connected.len() == 0 {
                proof {
                    assert forall|z: Coord| !connected@.contains(z) by {
                        if connected@.contains(z) {
                            assert(connected@.remove(z).len() == connected@.len() - 1);
                        }
                    }
                }
                connected.insert(sd);
                unconnected.remove(sd);
                proof {
                    assert forall|a: Coord, b: Coord|
                        connected@.contains(a) && connected@.contains(b) implies
                        #[trigger] reachable(connected@, a, b) by {
                        assert(a == sd && b == sd);
                        lemma_reachable_refl(connected@, sd);
                    }
                    assert forall|x: Coord, y: Coord|
                        #![trigger connected@.contains(y), unconnected@.contains(x)]
                        eff.contains(x) && !connected@.contains(x) && !unconnected@.contains(x)
                            && connected@.contains(y) implies !reachable(eff, y, x) by {
                        assert(false);
                    }
                    assert(connected@.len() >= 1) by {
                        assert(connected@.remove(sd).len() == connected@.len() - 1);
                    }
                }
            } else {
                match find_nearest_in_set(sd, &connected) {
                    Some(b) => {
                        let ghost conn0 = connected@;
                        let ghost un0 = unconnected@;
                        match hex_astar(b.0.0, b.0.1, sd.0, sd.1, &terrain_set) {
                            Some(path) => {
                                proof {
                                    assert(path@[0] == b.0);
                                }
                                merge_path(&mut connected, &mut unconnected, &path, Ghost(eff));
                                proof {
                                    lemma_drop_preserved(
                                        eff,
                                        conn0,
                                        connected@,
                                        un0,
                                        unconnected@,
                                        b.0,
                                    );
                                    assert(connected@.len() >= 1) by {
                                        assert(connected@.contains(b.0));
                                        assert(connected@.remove(b.0).len() == connected@.len()
                                            - 1);
                                    }
                                }
                            },
                            None => {
                            },
                        }
                    },
                    None => {
                    },
                }
            }
        }
        si += 1;
    }
    // Phase 2: densify toward the target by always attaching the nearest
    // pending point.
    proof {
        vstd::set_lib::lemma_len_subset(connected@, eff);
    }
    let ghost stitched = connected@;
    let target: usize = if target_count <= 0 {
        0
    } else {
        target_count as usize
    };
    while connected.len() < target && unconnected.len() > 0
        invariant
            target == if target_count <= 0 {
                0int
            } else {
                target_count as int
            },
            terrain_set.wf(),
            terrain_set@ == eff,
            eff.finite(),
            eff.len() < 0x7fff_ffff,
            forall|x: Coord| eff.contains(x) ==> coord_ok(x),
            connected.wf(),
            unconnected.wf(),
            set_connected(connected@),
            connected@.subset_of(eff),
            unconnected@.subset_of(eff),
            connected@.len() <= eff.len(),
            dropped_unreachable(eff, connected@, unconnected@),
            stitched.subset_of(connected@),
        ensures
            stitched.subset_of(connected@),
            terrain_set@ == eff,
            connected.wf(),
            unconnected.wf(),
            set_connected(connected@),
            connected@.subset_of(eff),
            dropped_unreachable(eff, connected@, unconnected@),
            connected@.len() >= target_count || unconnected@.len() == 0 || connected@.len() == 0,
            connected@.len() <= eff.len(),
        decreases unconnected@.len(),
    {
        let un_total = unconnected.len();
        let mut best: Option<(Coord, Coord, i32)> = None;
        let mut idx: usize = 0;
        while idx < un_total
            invariant
                connected.wf(),
                unconnected.wf(),
                forall|x: Coord| eff.contains(x) ==> coord_ok(x),
                connected@.subset_of(eff),
                unconnected@.subset_of(eff),
                un_total == unconnected.items().len(),
                0 <= idx <= un_total,
                best matches Some(t) ==> unconnected@.contains(t.0) && connected@.contains(t.1),
                (idx > 0 && connected@.len() != 0) ==> best is Some,
            decreases un_total - idx,
        {
            let u = unconnected.index_at(idx);
            proof {
                assert(eff.contains(u));
            }
            match find_nearest_in_set(u, &connected) {
                Some(b) => {
                    match best {
                        None => {
                            best = Some((u, b.0, b.1));
                        },
                        Some(t) => {
                            if b.1 < t.2 {
                                best = Some((u, b.0, b.1));
                            }
                        },
                    }
                },
                None => {
                },
            }
            idx += 1;
        }
        match best {
            Some(t) => {
                let u = t.0;
                let cn = t.1;
                let ghost conn0 = connected@;
                let ghost un0 = unconnected@;
                match hex_astar(cn.0, cn.1, u.0, u.1, &terrain_set) {
                    Some(path) => {
                        proof {
                            assert(path@[0] == cn && path@[path@.len() - 1] == u);
                        }
                        merge_path(&mut connected, &mut unconnected, &path, Ghost(eff));
                        proof {
                            lemma_drop_preserved(eff, conn0, connected@, un0, unconnected@, cn);
                            vstd::set_lib::lemma_len_subset(connected@, eff);
                            assert(path@.contains(path@[path@.len() - 1]));
                            assert(path@.to_set().contains(u));
                            assert(!unconnected@.contains(u));
                            assert(unconnected@.subset_of(un0.remove(u)));
                            vstd::set_lib::lemma_len_subset(unconnected@, un0.remove(u));
                            assert(un0.remove(u).len() == un0.len() - 1);
                        }
                    },
                    None => {
                        proof {
                            assert(!reachable(eff, cn, u));
                            lemma_drop_point(eff, connected@, u, cn);
                        }
                        let ghost pre_un = unconnected@;
                        unconnected.remove(u);
                        proof {
                            assert forall|x: Coord, y: Coord|
                                #![trigger connected@.contains(y), unconnected@.contains(x)]
                                eff.contains(x) && !connected@.contains(x)
                                    && !unconnected@.contains(x) && connected@.contains(y) implies
                                !reachable(eff, y, x) by {
                                if x == u {
                                } else {
                                    assert(!pre_un.contains(x));
                                }
                            }
                        }
                    },
                }
            },
            None => {
                proof {
                    assert(connected@.len() == 0);
                }
                break ;
            },
        }
    }
    let roads = sorted_coords(&connected);
    proof {
        assert(roads@.to_set() =~= connected@);
        roads@.lemma_cardinality_of_set();
        assert(roads@.no_duplicates()) by {
            assert forall|a: int, b: int| 0 <= a < b < roads@.len() implies roads@[a] != roads@[b]
                by {
                assert(crate::buildings::coord_lt(roads@[a], roads@[b]));
            }
        }
        roads@.unique_seq_to_set();
        assert(roads@.len() == connected@.len());
        assert forall|c: Coord| roads@.contains(c) implies eff.contains(c) by {
            assert(connected@.contains(c));
        }
        if exists|j: int| 0 <= j < seeds@.len() && eff.contains(#[trigger] seeds@[j]) {
            assert(stitched.len() >= 1);
            vstd::set_lib::lemma_len_subset(stitched, connected@);
            assert(connected@.len() >= 1);
        }
        if roads@.len() < target_count {
            assert forall|x: Coord, y: Coord|
                #![trigger reachable(eff, y, x)]
                eff.contains(x) && !roads@.to_set().contains(x) && roads@.to_set().contains(y)
                    implies !reachable(eff, y, x) by {
                assert(connected@.contains(y));
                assert(!connected@.contains(x));
                assert(!unconnected@.contains(x)) by {
                    if unconnected@.contains(x) {
                        assert(unconnected@.len() != 0) by {
                            assert(unconnected@.remove(x).len() == unconnected@.len() - 1);
                        }
                        assert(connected@.len() == 0);
                    }
                }
            }
        }
    }
    roads
}

} // verus!
