//! Hex coordinate geometry: axial/cube conversion, distance metrics,
//! neighbor enumeration, ring traversal and filled hexagon grids.

use vstd::prelude::*;
use vstd::arithmetic::div_mod::lemma_fundamental_div_mod_converse_div;
use vstd::arithmetic::div_mod::lemma_fundamental_div_mod_converse_mod;

verus! {

/// Axial hex coordinate `(q, r)`.
pub type Coord = (i32, i32);

/// Largest coordinate magnitude the distance routines accept.  Any distance
/// between two coordinates within this bound fits in `i32`, and every
/// intermediate value of the cube arithmetic fits in `i64`.
pub const COORD_BOUND: i32 = 0x1000_0000;

/// Bound on ring centers and radii; every coordinate of such a ring lies
/// within [`COORD_BOUND`].
pub const RING_BOUND: i32 = 0x0800_0000;

/// Bound on the components of a cube coordinate; the `s` component of an
/// in-bounds axial coordinate can reach twice [`COORD_BOUND`].
pub const CUBE_BOUND: i32 = 0x2000_0000;

/// A coordinate the distance routines accept.
pub open spec fn coord_ok(c: Coord) -> bool {
    -COORD_BOUND <= c.0 <= COORD_BOUND && -COORD_BOUND <= c.1 <= COORD_BOUND
}

/// Absolute value on mathematical integers.
pub open spec fn iabs(x: int) -> int {
    if x < 0 {
        -x
    } else {
        x
    }
}

/// Maximum of two mathematical integers.
pub open spec fn imax(a: int, b: int) -> int {
    if a >= b {
        a
    } else {
        b
    }
}

/// The cube coordinate `(q, r, s)` of an axial coordinate, with `q + r + s == 0`.
pub open spec fn cube_of(c: Coord) -> (int, int, int) {
    (c.0 as int, c.1 as int, -(c.0 as int) - (c.1 as int))
}

/// Distance of two cube coordinates: the largest componentwise deviation.
pub open spec fn cube_dist3(a: (int, int, int), b: (int, int, int)) -> int {
    imax(imax(iabs(a.0 - b.0), iabs(a.1 - b.1)), iabs(a.2 - b.2))
}

/// Hex distance of two axial coordinates.
pub open spec fn hex_dist(a: Coord, b: Coord) -> int {
    cube_dist3(cube_of(a), cube_of(b))
}

/// The six axial neighbors of `c`, in the order the library enumerates them.
pub open spec fn neighbor_at(c: Coord, i: int) -> (int, int) {
    if i == 0 {
        (c.0 + 1, c.1 as int)
    } else if i == 1 {
        (c.0 - 1, c.1 as int)
    } else if i == 2 {
        (c.0 as int, c.1 + 1)
    } else if i == 3 {
        (c.0 as int, c.1 - 1)
    } else if i == 4 {
        (c.0 + 1, c.1 - 1)
    } else {
        (c.0 - 1, c.1 + 1)
    }
}

/// Two axial coordinates that share a hex edge.
pub open spec fn adjacent(a: Coord, b: Coord) -> bool {
    exists|i: int| 0 <= i < 6 && #[trigger] neighbor_at(a, i) == (b.0 as int, b.1 as int)
}

/// When three integers cancel, the sum of their absolute values is twice the
/// largest absolute value; this makes the `(|dq| + |dr| + |ds|) / 2` form of
/// the hex distance agree with the max form.
proof fn lemma_abs_sum_even(a: int, b: int, c: int)
    requires
        a + b + c == 0,
    ensures
        iabs(a) + iabs(b) + iabs(c) == 2 * imax(imax(iabs(a), iabs(b)), iabs(c)),
{
}

/// Hex distance between two axial coordinates, computed as
/// `(|dq| + |dr| + |ds|) / 2` over the cube deltas.
pub fn hex_distance(q1: i32, r1: i32, q2: i32, r2: i32) -> (d: i32)
    requires
        coord_ok((q1, r1)),
        coord_ok((q2, r2)),
    ensures
        d == hex_dist((q1, r1), (q2, r2)),
        0 <= d,
{
    let s1: i64 = -(q1 as i64) - (r1 as i64);
    let s2: i64 = -(q2 as i64) - (r2 as i64);
    let dq: i64 = if q1 as i64 >= q2 as i64 {
        q1 as i64 - q2 as i64
    } else {
        q2 as i64 - q1 as i64
    };
    let dr: i64 = if r1 as i64 >= r2 as i64 {
        r1 as i64 - r2 as i64
    } else {
        r2 as i64 - r1 as i64
    };
    let ds: i64 = if s1 >= s2 {
        s1 - s2
    } else {
        s2 - s1
    };
    proof {
        lemma_abs_sum_even(q1 - q2, r1 - r2, s1 - s2);
    }
    ((dq + dr + ds) / 2) as i32
}

/// Cube coordinate `(q, r, s)` with the intended invariant `q + r + s == 0`.
#[derive(Clone, Copy, Debug, PartialEq, Eq, Structural)]
pub struct CubeCoord {
    pub q: i32,
    pub r: i32,
    pub s: i32,
}

/// The mathematical triple a cube coordinate stands for.
pub open spec fn cube_v(c: CubeCoord) -> (int, int, int) {
    (c.q as int, c.r as int, c.s as int)
}

/// A cube coordinate within the bounds the arithmetic accepts.
pub open spec fn cube_ok(c: CubeCoord) -> bool {
    -CUBE_BOUND <= c.q <= CUBE_BOUND && -CUBE_BOUND <= c.r <= CUBE_BOUND && -CUBE_BOUND <= c.s
        <= CUBE_BOUND
}

/// Convert axial coordinates to cube coordinates.
pub fn axial_to_cube(q: i32, r: i32) -> (c: CubeCoord)
    requires
        coord_ok((q, r)),
    ensures
        cube_v(c) == cube_of((q, r)),
        cube_ok(c),
        c.q + c.r + c.s == 0,
{
    CubeCoord { q, r, s: -q - r }
}

/// Cube distance: the largest componentwise deviation.
pub fn cube_distance(a: CubeCoord, b: CubeCoord) -> (d: i32)
    requires
        cube_ok(a),
        cube_ok(b),
    ensures
        d == cube_dist3(cube_v(a), cube_v(b)),
        0 <= d,
{
    let dq: i32 = if a.q >= b.q {
        a.q - b.q
    } else {
        b.q - a.q
    };
    let dr: i32 = if a.r >= b.r {
        a.r - b.r
    } else {
        b.r - a.r
    };
    let ds: i32 = if a.s >= b.s {
        a.s - b.s
    } else {
        b.s - a.s
    };
    let m: i32 = if dq >= dr {
        dq
    } else {
        dr
    };
    if m >= ds {
        m
    } else {
        ds
    }
}

/// The hex distance of two axial coordinates equals the cube distance of
/// their cube forms: the two metrics agree on all coordinates.
pub proof fn lemma_hex_distance_is_cube_distance(a: Coord, b: Coord)
    ensures
        hex_dist(a, b) == cube_dist3(cube_of(a), cube_of(b)),
{
}

/// Hex distance is symmetric.
pub proof fn lemma_hex_dist_symmetric(a: Coord, b: Coord)
    ensures
        hex_dist(a, b) == hex_dist(b, a),
{
}

/// Hex distance is zero exactly on equal coordinates.
pub proof fn lemma_hex_dist_zero(a: Coord, b: Coord)
    ensures
        hex_dist(a, b) == 0 <==> a == b,
{
}

/// Hex distance obeys the triangle inequality.
pub proof fn lemma_hex_dist_triangle(a: Coord, b: Coord, c: Coord)
    ensures
        hex_dist(a, c) <= hex_dist(a, b) + hex_dist(b, c),
{
}

/// Adjacent coordinates lie at hex distance one, and conversely.
pub proof fn lemma_adjacent_iff_dist_one(a: Coord, b: Coord)
    ensures
        adjacent(a, b) <==> hex_dist(a, b) == 1,
{
    if hex_dist(a, b) == 1 {
        let dq = b.0 - a.0;
        let dr = b.1 - a.1;
        if dq == 1 && dr == 0 {
            assert(neighbor_at(a, 0) == (b.0 as int, b.1 as int));
        } else if dq == -1 && dr == 0 {
            assert(neighbor_at(a, 1) == (b.0 as int, b.1 as int));
        } else if dq == 0 && dr == 1 {
            assert(neighbor_at(a, 2) == (b.0 as int, b.1 as int));
        } else if dq == 0 && dr == -1 {
            assert(neighbor_at(a, 3) == (b.0 as int, b.1 as int));
        } else if dq == 1 && dr == -1 {
            assert(neighbor_at(a, 4) == (b.0 as int, b.1 as int));
        } else {
            assert(dq == -1 && dr == 1);
            assert(neighbor_at(a, 5) == (b.0 as int, b.1 as int));
        }
    }
    if adjacent(a, b) {
        let i = choose|i: int| 0 <= i < 6 && #[trigger] neighbor_at(a, i) == (b.0 as int, b.1 as int);
        assert(hex_dist(a, b) == 1);
    }
}

/// Adjacency is symmetric.
pub proof fn lemma_adjacent_symmetric(a: Coord, b: Coord)
    ensures
        adjacent(a, b) <==> adjacent(b, a),
{
    lemma_adjacent_iff_dist_one(a, b);
    lemma_adjacent_iff_dist_one(b, a);
    lemma_hex_dist_symmetric(a, b);
}

/// All six axial neighbors of a coordinate, in a fixed order.
pub fn get_hex_neighbors(q: i32, r: i32) -> (ns: Vec<(i32, i32)>)
    requires
        coord_ok((q, r)),
    ensures
        ns@.len() == 6,
        forall|i: int|
            0 <= i < 6 ==> (#[trigger] ns@[i]).0 == neighbor_at((q, r), i).0 && ns@[i].1
                == neighbor_at((q, r), i).1,
        forall|i: int| 0 <= i < 6 ==> adjacent((q, r), #[trigger] ns@[i]),
        forall|c: Coord| adjacent((q, r), c) ==> ns@.contains(c),
{
    let mut ns: Vec<(i32, i32)> = Vec::new();
    ns.push((q + 1, r));
    ns.push((q - 1, r));
    ns.push((q, r + 1));
    ns.push((q, r - 1));
    ns.push((q + 1, r - 1));
    ns.push((q - 1, r + 1));
    proof {
        assert forall|i: int| 0 <= i < 6 implies adjacent((q, r), #[trigger] ns@[i]) by {
            assert(neighbor_at((q, r), i) == (ns@[i].0 as int, ns@[i].1 as int));
        }
        assert forall|c: Coord| adjacent((q, r), c) implies ns@.contains(c) by {
            let i = choose|i: int|
                0 <= i < 6 && #[trigger] neighbor_at((q, r), i) == (c.0 as int, c.1 as int);
            assert(ns@[i] == c);
        }
    }
    ns
}

/// Whether a coordinate list holds `c`.
pub fn coords_contains(v: &Vec<(i32, i32)>, c: (i32, i32)) -> (found: bool)
    ensures
        found == v@.contains(c),
{
    let mut k: usize = 0;
    while k < v.len()
        invariant
            0 <= k <= v@.len(),
            forall|j: int| 0 <= j < k ==> v@[j] != c,
        decreases v@.len() - k,
    {
        if v[k].0 == c.0 && v[k].1 == c.1 {
            return true;
        }
        k += 1;
    }
    false
}

/// The six unit cube direction vectors, in traversal order.
pub open spec fn unit_dir(i: int) -> (int, int, int) {
    if i == 0 {
        (1, 0, -1)
    } else if i == 1 {
        (1, -1, 0)
    } else if i == 2 {
        (0, -1, 1)
    } else if i == 3 {
        (-1, 0, 1)
    } else if i == 4 {
        (-1, 1, 0)
    } else {
        (0, 1, -1)
    }
}

/// The unit cube vector pointing from a ring's center to the corner where
/// side `i` of the ring walk begins.
pub open spec fn corner_dir(i: int) -> (int, int, int) {
    if i == 0 {
        (-1, 1, 0)
    } else if i == 1 {
        (0, 1, -1)
    } else if i == 2 {
        (1, 0, -1)
    } else if i == 3 {
        (1, -1, 0)
    } else if i == 4 {
        (0, -1, 1)
    } else {
        (-1, 0, 1)
    }
}

/// Position reached after `j` steps along side `side` of the radius-`radius`
/// ring around `c`.
pub open spec fn side_pos(c: (int, int, int), radius: int, side: int, j: int) -> (int, int, int) {
    (
        c.0 + radius * corner_dir(side).0 + j * unit_dir(side).0,
        c.1 + radius * corner_dir(side).1 + j * unit_dir(side).1,
        c.2 + radius * corner_dir(side).2 + j * unit_dir(side).2,
    )
}

/// The `k`-th coordinate of the radius-`radius` ring walk around `c`.
pub open spec fn ring_elem(c: (int, int, int), radius: int, k: int) -> (int, int, int) {
    side_pos(c, radius, k / radius, k % radius)
}

/// How many coordinates a ring of the given radius holds.
pub open spec fn ring_count(radius: int) -> int {
    if radius == 0 {
        1
    } else {
        6 * radius
    }
}

/// Every position on a side of the ring walk lies at cube distance exactly
/// `radius` from the center, and stays a well-formed cube coordinate.
proof fn lemma_side_pos_dist(c: (int, int, int), radius: int, side: int, j: int)
    requires
        0 <= side < 6,
        0 <= j <= radius,
        1 <= radius,
    ensures
        cube_dist3(c, side_pos(c, radius, side, j)) == radius,
        c.0 + c.1 + c.2 == 0 ==> {
            let p = side_pos(c, radius, side, j);
            p.0 + p.1 + p.2 == 0
        },
{
    if side == 0 {
        assert(side_pos(c, radius, side, j) == (c.0 + radius * (-1) + j * 1, c.1 + radius * 1 + j
            * 0, c.2 + radius * 0 + j * (-1)));
    } else if side == 1 {
        assert(side_pos(c, radius, side, j) == (c.0 + radius * 0 + j * 1, c.1 + radius * 1 + j * (
        -1), c.2 + radius * (-1) + j * 0));
    } else if side == 2 {
        assert(side_pos(c, radius, side, j) == (c.0 + radius * 1 + j * 0, c.1 + radius * 0 + j * (
        -1), c.2 + radius * (-1) + j * 1));
    } else if side == 3 {
        assert(side_pos(c, radius, side, j) == (c.0 + radius * 1 + j * (-1), c.1 + radius * (-1) + j
            * 0, c.2 + radius * 0 + j * 1));
    } else if side == 4 {
        assert(side_pos(c, radius, side, j) == (c.0 + radius * 0 + j * (-1), c.1 + radius * (-1) + j
            * 1, c.2 + radius * 1 + j * 0));
    } else {
        assert(side_pos(c, radius, side, j) == (c.0 + radius * (-1) + j * 0, c.1 + radius * 0 + j
            * 1, c.2 + radius * 1 + j * (-1)));
    }
}

/// The concrete coordinates of a side position, by side.
proof fn lemma_side_pos_char(c: (int, int, int), radius: int, side: int, j: int)
    requires
        0 <= side < 6,
    ensures
        side == 0 ==> side_pos(c, radius, side, j) == (c.0 + j - radius, c.1 + radius, c.2 - j),
        side == 1 ==> side_pos(c, radius, side, j) == (c.0 + j, c.1 + radius - j, c.2 - radius),
        side == 2 ==> side_pos(c, radius, side, j) == (c.0 + radius, c.1 - j, c.2 + j - radius),
        side == 3 ==> side_pos(c, radius, side, j) == (c.0 + radius - j, c.1 - radius, c.2 + j),
        side == 4 ==> side_pos(c, radius, side, j) == (c.0 - j, c.1 + j - radius, c.2 + radius),
        side == 5 ==> side_pos(c, radius, side, j) == (c.0 - radius, c.1 + j, c.2 + radius - j),
{
    if side == 0 {
        assert(side_pos(c, radius, side, j) == (c.0 + radius * (-1) + j * 1, c.1 + radius * 1 + j
            * 0, c.2 + radius * 0 + j * (-1)));
    } else if side == 1 {
        assert(side_pos(c, radius, side, j) == (c.0 + radius * 0 + j * 1, c.1 + radius * 1 + j * (
        -1), c.2 + radius * (-1) + j * 0));
    } else if side == 2 {
        assert(side_pos(c, radius, side, j) == (c.0 + radius * 1 + j * 0, c.1 + radius * 0 + j * (
        -1), c.2 + radius * (-1) + j * 1));
    } else if side == 3 {
        assert(side_pos(c, radius, side, j) == (c.0 + radius * 1 + j * (-1), c.1 + radius * (-1) + j
            * 0, c.2 + radius * 0 + j * 1));
    } else if side == 4 {
        assert(side_pos(c, radius, side, j) == (c.0 + radius * 0 + j * (-1), c.1 + radius * (-1) + j
            * 1, c.2 + radius * 1 + j * 0));
    } else {
        assert(side_pos(c, radius, side, j) == (c.0 + radius * (-1) + j * 0, c.1 + radius * 0 + j
            * 1, c.2 + radius * 1 + j * (-1)));
    }
}

/// Distinct walk indices land on distinct ring coordinates: each side moves
/// one axis strictly, and the six sides occupy six distinct sign sectors of
/// the boundary.
proof fn lemma_ring_elem_distinct(c: (int, int, int), radius: int, k1: int, k2: int)
    requires
        1 <= radius,
        0 <= k1 < k2 < 6 * radius,
    ensures
        ring_elem(c, radius, k1) != ring_elem(c, radius, k2),
{
    let i1 = k1 / radius;
    let j1 = k1 % radius;
    let i2 = k2 / radius;
    let j2 = k2 % radius;
    vstd::arithmetic::div_mod::lemma_fundamental_div_mod(k1, radius);
    vstd::arithmetic::div_mod::lemma_fundamental_div_mod(k2, radius);
    assert(0 <= j1 < radius && 0 <= j2 < radius) by {
        vstd::arithmetic::div_mod::lemma_mod_bound(k1, radius);
        vstd::arithmetic::div_mod::lemma_mod_bound(k2, radius);
    }
    assert(i1 >= 0) by {
        if i1 <= -1 {
            assert(false) by (nonlinear_arith)
                requires
                    i1 <= -1 && radius >= 1 && j1 < radius && k1 == radius * i1 + j1 && k1 >= 0,
            ;
        }
    }
    assert(i1 < 6) by {
        if i1 >= 6 {
            assert(false) by (nonlinear_arith)
                requires
                    i1 >= 6 && radius >= 1 && j1 >= 0 && k1 == radius * i1 + j1 && k1 < 6 * radius,
            ;
        }
    }
    assert(i2 >= 0) by {
        if i2 <= -1 {
            assert(false) by (nonlinear_arith)
                requires
                    i2 <= -1 && radius >= 1 && j2 < radius && k2 == radius * i2 + j2 && k2 >= 0,
            ;
        }
    }
    assert(i2 < 6) by {
        if i2 >= 6 {
            assert(false) by (nonlinear_arith)
                requires
                    i2 >= 6 && radius >= 1 && j2 >= 0 && k2 == radius * i2 + j2 && k2 < 6 * radius,
            ;
        }
    }
    assert(i1 <= i2) by {
        if i1 > i2 {
            assert(false) by (nonlinear_arith)
                requires
                    i1 >= i2 + 1 && radius >= 1 && j1 >= 0 && j2 < radius && k1 == radius * i1 + j1
                        && k2 == radius * i2 + j2 && k1 < k2,
            ;
        }
    }
    assert(i1 == i2 ==> j1 != j2);
    lemma_side_pos_char(c, radius, i1, j1);
    lemma_side_pos_char(c, radius, i2, j2);
    assert(side_pos(c, radius, i1, j1) != side_pos(c, radius, i2, j2));
}

/// Taking a whole side of `radius` steps lands on the corner where the next
/// side begins.
proof fn lemma_corner_step(c: (int, int, int), radius: int, side: int)
    requires
        0 <= side < 5,
        1 <= radius,
    ensures
        side_pos(c, radius, side, radius) == side_pos(c, radius, side + 1, 0),
{
    if side == 0 {
        assert(radius * (-1) + radius * 1 == radius * 0) by (nonlinear_arith);
        assert(radius * 1 + radius * 0 == radius * 1) by (nonlinear_arith);
        assert(radius * 0 + radius * (-1) == radius * (-1)) by (nonlinear_arith);
    } else if side == 1 {
        assert(radius * 0 + radius * 1 == radius * 1) by (nonlinear_arith);
        assert(radius * 1 + radius * (-1) == radius * 0) by (nonlinear_arith);
        assert(radius * (-1) + radius * 0 == radius * (-1)) by (nonlinear_arith);
    } else if side == 2 {
        assert(radius * 1 + radius * 0 == radius * 1) by (nonlinear_arith);
        assert(radius * 0 + radius * (-1) == radius * (-1)) by (nonlinear_arith);
        assert(radius * (-1) + radius * 1 == radius * 0) by (nonlinear_arith);
    } else if side == 3 {
        assert(radius * 1 + radius * (-1) == radius * 0) by (nonlinear_arith);
        assert(radius * (-1) + radius * 0 == radius * (-1)) by (nonlinear_arith);
        assert(radius * 0 + radius * 1 == radius * 1) by (nonlinear_arith);
    } else {
        assert(radius * 0 + radius * (-1) == radius * (-1)) by (nonlinear_arith);
        assert(radius * (-1) + radius * 1 == radius * 0) by (nonlinear_arith);
        assert(radius * 1 + radius * 0 == radius * 1) by (nonlinear_arith);
    }
}

/// One more step along a side moves the position by the side's unit vector.
proof fn lemma_side_pos_step(c: (int, int, int), radius: int, side: int, j: int)
    requires
        0 <= side < 6,
    ensures
        side_pos(c, radius, side, j + 1) == (
            side_pos(c, radius, side, j).0 + unit_dir(side).0,
            side_pos(c, radius, side, j).1 + unit_dir(side).1,
            side_pos(c, radius, side, j).2 + unit_dir(side).2,
        ),
{
    if side == 0 {
        assert((j + 1) * 1 == j * 1 + 1) by (nonlinear_arith);
        assert((j + 1) * 0 == j * 0 + 0) by (nonlinear_arith);
        assert((j + 1) * (-1) == j * (-1) + (-1)) by (nonlinear_arith);
    } else if side == 1 {
        assert((j + 1) * 1 == j * 1 + 1) by (nonlinear_arith);
        assert((j + 1) * (-1) == j * (-1) + (-1)) by (nonlinear_arith);
        assert((j + 1) * 0 == j * 0 + 0) by (nonlinear_arith);
    } else if side == 2 {
        assert((j + 1) * 0 == j * 0 + 0) by (nonlinear_arith);
        assert((j + 1) * (-1) == j * (-1) + (-1)) by (nonlinear_arith);
        assert((j + 1) * 1 == j * 1 + 1) by (nonlinear_arith);
    } else if side == 3 {
        assert((j + 1) * (-1) == j * (-1) + (-1)) by (nonlinear_arith);
        assert((j + 1) * 0 == j * 0 + 0) by (nonlinear_arith);
        assert((j + 1) * 1 == j * 1 + 1) by (nonlinear_arith);
    } else if side == 4 {
        assert((j + 1) * (-1) == j * (-1) + (-1)) by (nonlinear_arith);
        assert((j + 1) * 1 == j * 1 + 1) by (nonlinear_arith);
        assert((j + 1) * 0 == j * 0 + 0) by (nonlinear_arith);
    } else {
        assert((j + 1) * 0 == j * 0 + 0) by (nonlinear_arith);
        assert((j + 1) * 1 == j * 1 + 1) by (nonlinear_arith);
        assert((j + 1) * (-1) == j * (-1) + (-1)) by (nonlinear_arith);
    }
}

/// The `k`-th coordinate of the layer-`layer` ring around `c`, projected to
/// axial coordinates.
pub open spec fn ring_at(c: (int, int, int), layer: int, k: int) -> Coord {
    if layer == 0 {
        (c.0 as i32, c.1 as i32)
    } else {
        let p = ring_elem(c, layer, k);
        (p.0 as i32, p.1 as i32)
    }
}

/// Append `x` unless the sequence already holds it.
pub open spec fn push_new(s: Seq<Coord>, x: Coord) -> Seq<Coord> {
    if s.contains(x) {
        s
    } else {
        s.push(x)
    }
}

/// Append the first `n` coordinates of the layer-`layer` ring around `c`,
/// skipping those already present.
pub open spec fn append_ring(s: Seq<Coord>, c: (int, int, int), layer: int, n: int) -> Seq<Coord>
    decreases n,
{
    if n <= 0 {
        s
    } else {
        push_new(append_ring(s, c, layer, n - 1), ring_at(c, layer, n - 1))
    }
}

/// The filled hexagon around `c`: the rings of layers `0..=l` appended in
/// order, deduplicated.
pub open spec fn hex_grid_rec(c: (int, int, int), l: int) -> Seq<Coord>
    decreases l + 1,
{
    if l < 0 {
        Seq::empty()
    } else {
        append_ring(hex_grid_rec(c, l - 1), c, l, ring_count(l))
    }
}

/// The coordinates of the filled hexagon of radius `max_layer` around the
/// axial center, in the order the library enumerates them.
pub open spec fn hex_grid_seq(max_layer: int, cq: int, cr: int) -> Seq<Coord> {
    hex_grid_rec((cq, cr, -cq - cr), max_layer)
}

/// How many coordinates the filled hexagon of radius `l` holds: the ring
/// counts of layers `0..=l` summed.
pub open spec fn grid_size(l: int) -> int
    decreases l + 1,
{
    if l < 0 {
        0
    } else {
        grid_size(l - 1) + ring_count(l)
    }
}

/// A hexagon holds no negative number of coordinates.
pub proof fn lemma_grid_size_nonneg(l: int)
    ensures
        grid_size(l) >= 0,
    decreases l + 1,
{
    if l >= 0 {
        lemma_grid_size_nonneg(l - 1);
    }
}

/// The closed form of the filled hexagon's size.
pub proof fn lemma_grid_size_closed(l: int)
    requires
        l >= 0,
    ensures
        grid_size(l) == 1 + 3 * l * (l + 1),
    decreases l,
{
    if l == 0 {
        assert(grid_size(-1) == 0);
    } else {
        lemma_grid_size_closed(l - 1);
        assert(grid_size(l) == grid_size(l - 1) + 6 * l);
        assert(1 + 3 * (l - 1) * l + 6 * l == 1 + 3 * l * (l + 1)) by (nonlinear_arith);
    }
}

/// Bound on the centers and radii of filled hexagon grids.
pub const GRID_BOUND: i32 = 0x0400_0000;

/// All axial coordinates within `max_layer` rings of the center, enumerated
/// layer by layer, deduplicated.  A negative `max_layer` yields no
/// coordinates at all.
#[verifier::rlimit(100)]
pub fn generate_hex_grid(max_layer: i32, center_q: i32, center_r: i32) -> (grid: Vec<(i32, i32)>)
    requires
        -GRID_BOUND <= center_q <= GRID_BOUND,
        -GRID_BOUND <= center_r <= GRID_BOUND,
        max_layer <= GRID_BOUND,
    ensures
        grid@ == hex_grid_seq(max_layer as int, center_q as int, center_r as int),
        grid@.no_duplicates(),
        forall|kk: int|
            0 <= kk < grid@.len() ==> coord_ok(#[trigger] grid@[kk]) && hex_dist(
                (center_q, center_r),
                grid@[kk],
            ) <= max_layer,
        max_layer >= 0 ==> grid@.len() >= 1 && grid@[0] == (center_q, center_r),
        max_layer >= 0 ==> grid@.len() == 1 + 3 * (max_layer as int) * (max_layer + 1),
{
    let mut grid: Vec<(i32, i32)> = Vec::new();
    if max_layer < 0 {
        return grid;
    }
    proof {
        lemma_grid_size_closed(max_layer as int);
    }
    let center_cube = axial_to_cube(center_q, center_r);
    let ghost cc = cube_v(center_cube);
    let mut layer: i32 = 0;
    while layer <= max_layer
        invariant
            -GRID_BOUND <= center_q <= GRID_BOUND,
            -GRID_BOUND <= center_r <= GRID_BOUND,
            0 <= max_layer <= GRID_BOUND,
            0 <= layer <= max_layer + 1,
            cube_v(center_cube) == cc,
            cc == (center_q as int, center_r as int, -(center_q as int) - (center_r as int)),
            grid@ == hex_grid_rec(cc, layer - 1),
            grid@.len() == grid_size(layer - 1),
            grid@.no_duplicates(),
            forall|kk: int|
                0 <= kk < grid@.len() ==> coord_ok(#[trigger] grid@[kk]) && hex_dist(
                    (center_q, center_r),
                    grid@[kk],
                ) < layer,
            layer >= 1 ==> grid@.len() >= 1 && grid@[0] == (center_q, center_r),
        decreases max_layer + 1 - layer,
    {
        let ring = cube_ring(center_cube, layer);
        let mut jj: usize = 0;
        while jj < ring.len()
            invariant
                -GRID_BOUND <= center_q <= GRID_BOUND,
                -GRID_BOUND <= center_r <= GRID_BOUND,
                0 <= max_layer <= GRID_BOUND,
                0 <= layer <= max_layer,
                cube_v(center_cube) == cc,
                cc == (center_q as int, center_r as int, -(center_q as int) - (center_r as int)),
                0 <= jj <= ring@.len(),
                ring@.len() == ring_count(layer as int),
                layer == 0 ==> ring@[0] == center_cube,
                layer > 0 ==> forall|k: int|
                    0 <= k < ring@.len() ==> cube_v(#[trigger] ring@[k]) == ring_elem(
                        cc,
                        layer as int,
                        k,
                    ),
                forall|k: int|
                    0 <= k < ring@.len() ==> cube_dist3(cc, cube_v(#[trigger] ring@[k])) == layer,
                forall|k: int|
                    0 <= k < ring@.len() ==> {
                        let p = cube_v(#[trigger] ring@[k]);
                        p.0 + p.1 + p.2 == 0 && cube_ok(ring@[k])
                    },
                forall|k1: int, k2: int|
                    0 <= k1 < k2 < ring@.len() ==> #[trigger] ring@[k1] != #[trigger] ring@[k2],
                grid@ == append_ring(hex_grid_rec(cc, layer - 1), cc, layer as int, jj as int),
                grid@.len() == grid_size(layer - 1) + jj,
                forall|kk: int|
                    0 <= kk < grid_size(layer - 1) ==> hex_dist(
                        (center_q, center_r),
                        #[trigger] grid@[kk],
                    ) < layer,
                forall|m: int|
                    0 <= m < jj ==> #[trigger] grid@[grid_size(layer - 1) + m] == (
                    ring@[m].q,
                    ring@[m].r,
                ),
                grid@.no_duplicates(),
                forall|kk: int|
                    0 <= kk < grid@.len() ==> coord_ok(#[trigger] grid@[kk]) && hex_dist(
                        (center_q, center_r),
                        grid@[kk],
                    ) <= layer,
                layer >= 1 ==> grid@.len() >= 1 && grid@[0] == (center_q, center_r),
                layer == 0 && jj >= 1 ==> grid@.len() >= 1 && grid@[0] == (center_q, center_r),
            decreases ring@.len() - jj,
        {
            let item = ring[jj];
            let cand = (item.q, item.r);
            proof {
                lemma_grid_size_nonneg(layer - 1);
                assert(cube_v(ring@[jj as int]).0 + cube_v(ring@[jj as int]).1 + cube_v(
                    ring@[jj as int],
                ).2 == 0);
                assert(cube_of(cand) == cube_v(ring@[jj as int]));
                assert(hex_dist((center_q, center_r), cand) == cube_dist3(
                    cc,
                    cube_v(ring@[jj as int]),
                ));
                assert(iabs(cube_v(ring@[jj as int]).0 - cc.0) <= layer);
                assert(iabs(cube_v(ring@[jj as int]).1 - cc.1) <= layer);
                assert(coord_ok(cand));
                assert(ring_at(cc, layer as int, jj as int) == cand);
                assert(append_ring(hex_grid_rec(cc, layer - 1), cc, layer as int, jj + 1)
                    == push_new(grid@, cand));
                // the candidate is fresh: earlier layers lie strictly
                // closer to the center, and the ring itself repeats no
                // coordinate
                assert(!grid@.contains(cand)) by {
                    if grid@.contains(cand) {
                        let idx = choose|idx: int| 0 <= idx < grid@.len() && grid@[idx] == cand;
                        if idx < grid_size(layer - 1) {
                            assert(hex_dist((center_q, center_r), grid@[idx]) < layer);
                        } else {
                            let m = idx - grid_size(layer - 1);
                            assert(grid@[grid_size(layer - 1) + m] == (ring@[m].q, ring@[m].r));
                            let pm = cube_v(ring@[m]);
                            let pj = cube_v(ring@[jj as int]);
                            assert(pm.0 + pm.1 + pm.2 == 0 && pj.0 + pj.1 + pj.2 == 0);
                            assert(pm == pj);
                            assert(ring@[m] == ring@[jj as int]);
                        }
                    }
                }
            }
            let ghost pre_grid = grid@;
            if !coords_contains(&grid, cand) {
                grid.push(cand);
                proof {
                    lemma_grid_size_nonneg(layer - 1);
                    assert forall|a: int, b: int|
                        0 <= a < b < grid@.len() implies grid@[a] != grid@[b] by {
                        if b == grid@.len() - 1 {
                            assert(!grid@.take(b).contains(grid@[b]));
                            assert(grid@.take(b)[a] == grid@[a]);
                        }
                    }
                    assert(grid@[grid_size(layer - 1) + jj as int] == cand);
                    assert forall|m: int|
                        0 <= m < jj + 1 implies #[trigger] grid@[grid_size(layer - 1) + m] == (
                        ring@[m].q,
                        ring@[m].r,
                    ) by {
                        if m == jj as int {
                            assert(grid@[grid_size(layer - 1) + m] == cand);
                        } else {
                            broadcast use vstd::seq::axiom_seq_push_index_different;

                            assert(pre_grid[grid_size(layer - 1) + m] == (ring@[m].q, ring@[m].r));
                            assert(grid@ == pre_grid.push(cand));
                            assert(0 <= grid_size(layer - 1) + m < pre_grid.len());
                            assert(pre_grid.push(cand)[grid_size(layer - 1) + m] == pre_grid[
                                grid_size(layer - 1) + m]);
                        }
                    }
                }
            }
            jj += 1;
        }
        layer += 1;
    }
    grid
}

/// Add two cube coordinates componentwise.
pub fn cube_add(a: CubeCoord, b: CubeCoord) -> (c: CubeCoord)
    requires
        i32::MIN <= a.q + b.q <= i32::MAX,
        i32::MIN <= a.r + b.r <= i32::MAX,
        i32::MIN <= a.s + b.s <= i32::MAX,
    ensures
        c.q == a.q + b.q,
        c.r == a.r + b.r,
        c.s == a.s + b.s,
{
    CubeCoord { q: a.q + b.q, r: a.r + b.r, s: a.s + b.s }
}

/// Scale a cube coordinate by a factor.
pub fn cube_scale(hex: CubeCoord, factor: i32) -> (c: CubeCoord)
    requires
        i32::MIN <= hex.q * factor <= i32::MAX,
        i32::MIN <= hex.r * factor <= i32::MAX,
        i32::MIN <= hex.s * factor <= i32::MAX,
    ensures
        c.q == hex.q * factor,
        c.r == hex.r * factor,
        c.s == hex.s * factor,
{
    CubeCoord { q: hex.q * factor, r: hex.r * factor, s: hex.s * factor }
}

/// The `i`-th of the six unit cube direction vectors.
pub fn cube_direction(i: usize) -> (c: CubeCoord)
    requires
        i < 6,
    ensures
        cube_v(c) == unit_dir(i as int),
{
    if i == 0 {
        CubeCoord { q: 1, r: 0, s: -1 }
    } else if i == 1 {
        CubeCoord { q: 1, r: -1, s: 0 }
    } else if i == 2 {
        CubeCoord { q: 0, r: -1, s: 1 }
    } else if i == 3 {
        CubeCoord { q: -1, r: 0, s: 1 }
    } else if i == 4 {
        CubeCoord { q: -1, r: 1, s: 0 }
    } else {
        CubeCoord { q: 0, r: 1, s: -1 }
    }
}

/// The cube neighbor of `cube` in direction `direction` (taken modulo six).
pub fn cube_neighbor(cube: CubeCoord, direction: usize) -> (c: CubeCoord)
    requires
        i32::MIN < cube.q < i32::MAX,
        i32::MIN < cube.r < i32::MAX,
        i32::MIN < cube.s < i32::MAX,
    ensures
        cube_v(c) == (
            cube.q + unit_dir(direction as int % 6).0,
            cube.r + unit_dir(direction as int % 6).1,
            cube.s + unit_dir(direction as int % 6).2,
        ),
{
    let d = cube_direction(direction % 6);
    cube_add(cube, d)
}

/// The ring of cube coordinates at distance exactly `radius` around `center`:
/// the six sides of the hexagonal boundary walked in direction order,
/// `radius` steps per side.  Radius zero yields the center alone.
pub fn cube_ring(center: CubeCoord, radius: i32) -> (ring: Vec<CubeCoord>)
    requires
        0 <= radius <= RING_BOUND,
        -RING_BOUND <= center.q <= RING_BOUND,
        -RING_BOUND <= center.r <= RING_BOUND,
        -RING_BOUND <= center.s <= RING_BOUND,
        center.q + center.r + center.s == 0,
    ensures
        ring@.len() == ring_count(radius as int),
        radius == 0 ==> ring@[0] == center,
        radius > 0 ==> forall|k: int|
            0 <= k < ring@.len() ==> cube_v(#[trigger] ring@[k]) == ring_elem(
                cube_v(center),
                radius as int,
                k,
            ),
        forall|k: int|
            0 <= k < ring@.len() ==> cube_dist3(cube_v(center), cube_v(#[trigger] ring@[k]))
                == radius,
        forall|k: int|
            0 <= k < ring@.len() ==> {
                let p = cube_v(#[trigger] ring@[k]);
                p.0 + p.1 + p.2 == 0 && cube_ok(ring@[k])
            },
        forall|k1: int, k2: int| 0 <= k1 < k2 < ring@.len() ==> #[trigger] ring@[k1] != #[trigger] ring@[k2],
{
    if radius == 0 {
        let mut one: Vec<CubeCoord> = Vec::new();
        one.push(center);
        return one;
    }
    let mut ring: Vec<CubeCoord> = Vec::new();
    let start_dir = cube_direction(4);
    proof {
        assert(start_dir.q * radius == -radius && start_dir.r * radius == radius && start_dir.s
            * radius == 0) by (nonlinear_arith)
            requires
                cube_v(start_dir) == (-1int, 1int, 0int),
                0 <= radius,
        ;
    }
    let offset = cube_scale(start_dir, radius);
    let mut current = cube_add(center, offset);
    proof {
        assert(radius * corner_dir(0).0 == -radius && radius * corner_dir(0).1 == radius && radius
            * corner_dir(0).2 == 0) by (nonlinear_arith)
            requires
                0 <= radius,
        ;
        assert(cube_v(current) == side_pos(cube_v(center), radius as int, 0, 0));
    }
    let mut i: usize = 0;
    while i < 6
        invariant
            0 <= radius <= RING_BOUND,
            -RING_BOUND <= center.q <= RING_BOUND,
            -RING_BOUND <= center.r <= RING_BOUND,
            -RING_BOUND <= center.s <= RING_BOUND,
            center.q + center.r + center.s == 0,
            1 <= radius,
            0 <= i <= 6,
            ring@.len() == i * (radius as int),
            i < 6 ==> cube_v(current) == side_pos(cube_v(center), radius as int, i as int, 0),
            i < 6 ==> cube_dist3(cube_v(center), cube_v(current)) == radius,
            forall|k: int|
                0 <= k < ring@.len() ==> cube_v(#[trigger] ring@[k]) == ring_elem(
                    cube_v(center),
                    radius as int,
                    k,
                ),
            forall|k: int|
                0 <= k < ring@.len() ==> cube_dist3(cube_v(center), cube_v(#[trigger] ring@[k]))
                    == radius,
            forall|k: int|
                0 <= k < ring@.len() ==> {
                    let p = cube_v(#[trigger] ring@[k]);
                    p.0 + p.1 + p.2 == 0 && cube_ok(ring@[k])
                },
        decreases 6 - i,
    {
        let mut j: i32 = 0;
        while j < radius
            invariant
                0 <= radius <= RING_BOUND,
                -RING_BOUND <= center.q <= RING_BOUND,
                -RING_BOUND <= center.r <= RING_BOUND,
                -RING_BOUND <= center.s <= RING_BOUND,
                center.q + center.r + center.s == 0,
                1 <= radius,
                0 <= i < 6,
                0 <= j <= radius,
                ring@.len() == i * (radius as int) + j,
                cube_v(current) == side_pos(cube_v(center), radius as int, i as int, j as int),
                cube_dist3(cube_v(center), cube_v(current)) == radius,
                forall|k: int|
                    0 <= k < ring@.len() ==> cube_v(#[trigger] ring@[k]) == ring_elem(
                        cube_v(center),
                        radius as int,
                        k,
                    ),
                forall|k: int|
                    0 <= k < ring@.len() ==> cube_dist3(
                        cube_v(center),
                        cube_v(#[trigger] ring@[k]),
                    ) == radius,
                forall|k: int|
                    0 <= k < ring@.len() ==> {
                        let p = cube_v(#[trigger] ring@[k]);
                        p.0 + p.1 + p.2 == 0 && cube_ok(ring@[k])
                    },
            decreases radius - j,
        {
            proof {
                lemma_fundamental_div_mod_converse_div(
                    i * (radius as int) + j,
                    radius as int,
                    i as int,
                    j as int,
                );
                lemma_fundamental_div_mod_converse_mod(
                    i * (radius as int) + j,
                    radius as int,
                    i as int,
                    j as int,
                );
                assert(ring_elem(cube_v(center), radius as int, i * (radius as int) + j)
                    == side_pos(cube_v(center), radius as int, i as int, j as int));
                lemma_side_pos_dist(cube_v(center), radius as int, i as int, j as int);
            }
            ring.push(current);
            proof {
                lemma_side_pos_step(cube_v(center), radius as int, i as int, j as int);
                lemma_side_pos_dist(cube_v(center), radius as int, i as int, j + 1);
            }
            current = cube_neighbor(current, i);
            j += 1;
        }
        proof {
            if i < 5 {
                lemma_corner_step(cube_v(center), radius as int, i as int);
                lemma_side_pos_dist(cube_v(center), radius as int, i as int + 1, 0);
            }
            assert((i + 1) * (radius as int) == i * (radius as int) + radius) by (nonlinear_arith);
        }
        i += 1;
    }
    proof {
        assert forall|k1: int, k2: int|
            0 <= k1 < k2 < ring@.len() implies #[trigger] ring@[k1] != #[trigger] ring@[k2] by {
            lemma_ring_elem_distinct(cube_v(center), radius as int, k1, k2);
        }
    }
    ring
}

} // verus!
