//! A* shortest paths over caller-supplied traversable coordinate sets, with
//! full path reconstruction, a length-only variant, and whole-set
//! connectivity validation.  The contracts pin the results to the
//! mathematical notion of a shortest walk through the set.

use vstd::prelude::*;

use crate::geometry::Coord;
use crate::geometry::adjacent;
use crate::geometry::coord_ok;
use crate::geometry::get_hex_neighbors;
use crate::geometry::hex_dist;
use crate::geometry::hex_distance;
use crate::geometry::lemma_adjacent_iff_dist_one;
use crate::geometry::lemma_adjacent_symmetric;
use crate::geometry::lemma_hex_dist_triangle;
use crate::geometry::lemma_hex_dist_zero;
use crate::coordset::CoordSet;
use crate::coordset::CoordMap;

verus! {

/// A walk through `s` from `a` to `b`: nonempty, starting at `a`, ending at
/// `b`, staying inside `s`, each consecutive pair sharing a hex edge.
pub open spec fn is_path(p: Seq<Coord>, s: Set<Coord>, a: Coord, b: Coord) -> bool {
    &&& p.len() >= 1
    &&& p[0] == a
    &&& p[p.len() - 1] == b
    &&& forall|i: int| 0 <= i < p.len() ==> s.contains(#[trigger] p[i])
    &&& forall|i: int| 0 <= i < p.len() - 1 ==> adjacent(#[trigger] p[i], p[i + 1])
}

/// `b` can be reached from `a` through `s`.
pub open spec fn reachable(s: Set<Coord>, a: Coord, b: Coord) -> bool {
    exists|p: Seq<Coord>| is_path(p, s, a, b)
}

/// Every member of `s` can reach every other member through `s`.
pub open spec fn set_connected(s: Set<Coord>) -> bool {
    forall|a: Coord, b: Coord|
        s.contains(a) && s.contains(b) ==> #[trigger] reachable(s, a, b)
}

/// A member reaches itself.
pub proof fn lemma_reachable_refl(s: Set<Coord>, a: Coord)
    requires
        s.contains(a),
    ensures
        reachable(s, a, a),
{
    assert(is_path(seq![a], s, a, a));
}

/// A path read backwards is a path, since adjacency is symmetric.
pub proof fn lemma_path_reverse(p: Seq<Coord>, s: Set<Coord>, a: Coord, b: Coord)
    requires
        is_path(p, s, a, b),
    ensures
        is_path(p.reverse(), s, b, a),
        p.reverse().len() == p.len(),
{
    let r = p.reverse();
    assert forall|i: int| 0 <= i < r.len() - 1 implies adjacent(#[trigger] r[i], r[i + 1]) by {
        assert(r[i] == p[p.len() - 1 - i]);
        assert(r[i + 1] == p[p.len() - 2 - i]);
        assert(adjacent(p[p.len() - 2 - i], p[p.len() - 1 - i]));
        lemma_adjacent_symmetric(p[p.len() - 2 - i], p[p.len() - 1 - i]);
    }
    assert forall|i: int| 0 <= i < r.len() implies s.contains(#[trigger] r[i]) by {
        assert(r[i] == p[p.len() - 1 - i]);
    }
}

/// Reachability is symmetric.
pub proof fn lemma_reachable_symmetric(s: Set<Coord>, a: Coord, b: Coord)
    requires
        reachable(s, a, b),
    ensures
        reachable(s, b, a),
{
    let p = choose|p: Seq<Coord>| is_path(p, s, a, b);
    lemma_path_reverse(p, s, a, b);
}

/// Two paths that meet in the middle concatenate to a path.
pub proof fn lemma_path_concat(p1: Seq<Coord>, p2: Seq<Coord>, s: Set<Coord>, a: Coord, b: Coord, c: Coord)
    requires
        is_path(p1, s, a, b),
        is_path(p2, s, b, c),
    ensures
        is_path(p1 + p2.subrange(1, p2.len() as int), s, a, c),
        (p1 + p2.subrange(1, p2.len() as int)).len() == p1.len() + p2.len() - 1,
{
    let q = p1 + p2.subrange(1, p2.len() as int);
    assert(q[0] == p1[0]);
    assert(q[q.len() - 1] == if p2.len() == 1 {
        p1[p1.len() - 1]
    } else {
        p2[p2.len() - 1]
    });
    assert forall|i: int| 0 <= i < q.len() implies s.contains(#[trigger] q[i]) by {
        if i < p1.len() {
            assert(q[i] == p1[i]);
        } else {
            assert(q[i] == p2[i - p1.len() + 1]);
        }
    }
    assert forall|i: int| 0 <= i < q.len() - 1 implies adjacent(#[trigger] q[i], q[i + 1]) by {
        if i + 1 < p1.len() {
            assert(q[i] == p1[i] && q[i + 1] == p1[i + 1]);
        } else if i + 1 == p1.len() {
            assert(q[i] == p1[p1.len() - 1] && q[i + 1] == p2[1]);
            assert(adjacent(p2[0], p2[1]));
        } else {
            assert(q[i] == p2[i - p1.len() + 1] && q[i + 1] == p2[i - p1.len() + 2]);
            assert(adjacent(p2[i - p1.len() + 1], p2[i - p1.len() + 2]));
        }
    }
}

/// Reachability is transitive.
pub proof fn lemma_reachable_transitive(s: Set<Coord>, a: Coord, b: Coord, c: Coord)
    requires
        reachable(s, a, b),
        reachable(s, b, c),
    ensures
        reachable(s, a, c),
{
    let p1 = choose|p: Seq<Coord>| is_path(p, s, a, b);
    let p2 = choose|p: Seq<Coord>| is_path(p, s, b, c);
    lemma_path_concat(p1, p2, s, a, b, c);
}

/// A path through a set is a path through any superset.
pub proof fn lemma_reachable_monotone(s1: Set<Coord>, s2: Set<Coord>, a: Coord, b: Coord)
    requires
        reachable(s1, a, b),
        s1.subset_of(s2),
    ensures
        reachable(s2, a, b),
{
    let p = choose|p: Seq<Coord>| is_path(p, s1, a, b);
    assert(is_path(p, s2, a, b));
}

/// A path extends by one adjacent member.
pub proof fn lemma_path_extend(p: Seq<Coord>, s: Set<Coord>, a: Coord, b: Coord, w: Coord)
    requires
        is_path(p, s, a, b),
        adjacent(b, w),
        s.contains(w),
    ensures
        is_path(p.push(w), s, a, w),
{
    let q = p.push(w);
    assert forall|i: int| 0 <= i < q.len() - 1 implies adjacent(#[trigger] q[i], q[i + 1]) by {
        if i + 1 < p.len() {
            assert(q[i] == p[i] && q[i + 1] == p[i + 1]);
        } else {
            assert(q[i] == p[p.len() - 1] && q[i + 1] == w);
        }
    }
}

/// A prefix of a path is a path to the cut point.
pub proof fn lemma_path_prefix(p: Seq<Coord>, s: Set<Coord>, a: Coord, b: Coord, i: int)
    requires
        is_path(p, s, a, b),
        0 <= i < p.len(),
    ensures
        is_path(p.subrange(0, i + 1), s, a, p[i]),
{
    let q = p.subrange(0, i + 1);
    assert forall|j: int| 0 <= j < q.len() - 1 implies adjacent(#[trigger] q[j], q[j + 1]) by {
        assert(q[j] == p[j] && q[j + 1] == p[j + 1]);
        assert(adjacent(p[j], p[j + 1]));
    }
}

/// A suffix of a path is a path from the cut point.
pub proof fn lemma_path_suffix(p: Seq<Coord>, s: Set<Coord>, a: Coord, b: Coord, i: int)
    requires
        is_path(p, s, a, b),
        0 <= i < p.len(),
    ensures
        is_path(p.subrange(i, p.len() as int), s, p[i], b),
{
    let q = p.subrange(i, p.len() as int);
    assert forall|j: int| 0 <= j < q.len() - 1 implies adjacent(#[trigger] q[j], q[j + 1]) by {
        assert(q[j] == p[i + j] && q[j + 1] == p[i + j + 1]);
        assert(adjacent(p[i + j], p[i + j + 1]));
    }
}

/// A walk cannot beat the hex distance: every path from `a` to `b` takes at
/// least `hex_dist(a, b)` steps.
pub proof fn lemma_path_len_ge_dist(p: Seq<Coord>, s: Set<Coord>, a: Coord, b: Coord)
    requires
        is_path(p, s, a, b),
    ensures
        p.len() - 1 >= hex_dist(a, b),
    decreases p.len(),
{
    if p.len() == 1 {
        lemma_hex_dist_zero(a, b);
    } else {
        let p2 = p.subrange(1, p.len() as int);
        lemma_path_suffix(p, s, a, b, 1);
        lemma_path_len_ge_dist(p2, s, p[1], b);
        assert(adjacent(p[0], p[1]));
        lemma_adjacent_iff_dist_one(p[0], p[1]);
        lemma_hex_dist_triangle(a, p[1], b);
    }
}

/// The first position of a path that escapes `cset`, given that the path
/// starts inside and ends outside.
pub proof fn lemma_first_outside(p: Seq<Coord>, cset: Set<Coord>) -> (i: int)
    requires
        p.len() >= 1,
        cset.contains(p[0]),
        !cset.contains(p[p.len() - 1]),
    ensures
        1 <= i < p.len(),
        !cset.contains(p[i]),
        forall|j: int| 0 <= j < i ==> cset.contains(#[trigger] p[j]),
    decreases p.len(),
{
    if !cset.contains(p[1]) {
        1
    } else {
        let p2 = p.subrange(1, p.len() as int);
        let i2 = lemma_first_outside(p2, cset);
        assert forall|j: int| 0 <= j < i2 + 1 implies cset.contains(#[trigger] p[j]) by {
            if j >= 1 {
                assert(p2[j - 1] == p[j]);
                assert(cset.contains(p2[j - 1]));
            }
        }
        assert(p[i2 + 1] == p2[i2]);
        i2 + 1
    }
}

/// One pending entry of the open set: a coordinate, its path cost from the
/// start, and its heuristic distance to the goal.  Stale entries are left
/// in place and skipped on pop, rather than updated in place.
struct Node {
    q: i32,
    r: i32,
    g: usize,
    h: i32,
}

/// The coordinate an entry stands for.
spec fn coord_of(n: Node) -> Coord {
    (n.q, n.r)
}

/// Priority order: lowest `f = g + h` first, ties broken by lowest `h`.
spec fn key_le(a: Node, b: Node) -> bool {
    a.g + a.h < b.g + b.h || (a.g + a.h == b.g + b.h && a.h <= b.h)
}

/// The open set holds an entry for `w` carrying cost `gv`.
spec fn has_entry(o: Seq<Node>, w: Coord, gv: usize) -> bool {
    exists|j: int| 0 <= j < o.len() && coord_of(#[trigger] o[j]) == w && o[j].g == gv
}

/// Every entry is sane: its coordinate is traversable and has a recorded
/// cost no larger than the entry's, and its heuristic is the hex distance
/// to the goal.
spec fn entry_ok(s: Set<Coord>, g: Map<Coord, usize>, goal: Coord, n: Node) -> bool {
    &&& s.contains(coord_of(n))
    &&& g.dom().contains(coord_of(n))
    &&& g[coord_of(n)] <= n.g
    &&& n.h == hex_dist(coord_of(n), goal)
}

/// There is a walk from `start` to `v` through `s` of exactly `gv` steps.
#[verifier::opaque]
spec fn cost_realizable(s: Set<Coord>, start: Coord, v: Coord, gv: int) -> bool {
    exists|p: Seq<Coord>| is_path(p, s, start, v) && p.len() == gv + 1
}

/// No walk from `start` to `v` through `s` takes fewer than `gv` steps.
#[verifier::opaque]
spec fn min_cost(s: Set<Coord>, start: Coord, v: Coord, gv: int) -> bool {
    forall|p: Seq<Coord>| is_path(p, s, start, v) ==> p.len() >= gv + 1
}

/// Every traversable neighbor of `v` has a recorded cost at most one more
/// than `v`'s.
spec fn expanded_to(s: Set<Coord>, g: Map<Coord, usize>, v: Coord) -> bool {
    forall|x: Coord|
        s.contains(x) && #[trigger] adjacent(v, x) ==> g.dom().contains(x) && g[x] <= g[v] + 1
}

/// The search invariant, except that freshly closed coordinates may not yet
/// have had their neighbors relaxed.
#[verifier::opaque]
spec fn inv_base(
    s: Set<Coord>,
    c: Set<Coord>,
    g: Map<Coord, usize>,
    par: Map<Coord, Coord>,
    o: Seq<Node>,
    start: Coord,
    goal: Coord,
) -> bool {
    &&& s.finite()
    &&& c.finite()
    &&& c.subset_of(s)
    &&& c.len() <= s.len()
    &&& g.dom().subset_of(s)
    &&& c.subset_of(g.dom())
    &&& g.dom().contains(start)
    &&& g[start] == 0
    &&& forall|w: Coord|
        #[trigger] g.dom().contains(w) ==> w == start || (par.dom().contains(w) && c.contains(
            par[w],
        ) && g.dom().contains(par[w]) && adjacent(par[w], w) && g[w] == g[par[w]] + 1)
    &&& forall|w: Coord|
        #[trigger] g.dom().contains(w) ==> cost_realizable(s, start, w, g[w] as int)
    &&& forall|v: Coord| #[trigger] c.contains(v) ==> min_cost(s, start, v, g[v] as int)
    &&& forall|w: Coord|
        #[trigger] g.dom().contains(w) && !c.contains(w) ==> has_entry(o, w, g[w])
    &&& forall|j: int| 0 <= j < o.len() ==> entry_ok(s, g, goal, #[trigger] o[j])
    &&& forall|v: Coord| #[trigger] c.contains(v) ==> g[v] + 1 <= c.len()
    &&& forall|w: Coord| #[trigger] g.dom().contains(w) ==> g[w] <= c.len()
    &&& (c.len() == 0 ==> o.len() == 1 && coord_of(o[0]) == start)
    &&& (c.len() != 0 ==> c.contains(start))
    &&& !c.contains(goal)
}

/// The full search invariant: the base invariant, and every closed
/// coordinate fully relaxed.
spec fn inv_search(
    s: Set<Coord>,
    c: Set<Coord>,
    g: Map<Coord, usize>,
    par: Map<Coord, Coord>,
    o: Seq<Node>,
    start: Coord,
    goal: Coord,
) -> bool {
    &&& inv_base(s, c, g, par, o, start, goal)
    &&& forall|v: Coord| #[trigger] c.contains(v) ==> expanded_to(s, g, v)
}

/// Take out the entry with the least key; ties go to the earliest entry.
fn pop_min(open: &mut Vec<Node>) -> (e: Node)
    requires
        old(open)@.len() >= 1,
    ensures
        exists|i: int|
            0 <= i < old(open)@.len() && old(open)@[i] == e && #[trigger] old(open)@.remove(i)
                == final(open)@,
        forall|j: int| 0 <= j < old(open)@.len() ==> key_le(e, #[trigger] old(open)@[j]),
{
    let mut best: usize = 0;
    let mut j: usize = 1;
    while j < open.len()
        invariant
            open@ == old(open)@,
            1 <= open@.len(),
            0 <= best < open@.len(),
            1 <= j <= open@.len(),
            forall|m: int| 0 <= m < j ==> key_le(open@[best as int], #[trigger] open@[m]),
        decreases open@.len() - j,
    {
        let fj: i128 = open[j].g as i128 + open[j].h as i128;
        let fb: i128 = open[best].g as i128 + open[best].h as i128;
        if fj < fb || (fj == fb && open[j].h < open[best].h) {
            best = j;
        }
        j += 1;
    }
    let e = open.remove(best);
    proof {
        assert(old(open)@[best as int] == e && old(open)@.remove(best as int) == final(open)@);
    }
    e
}

/// Removing one open entry whose coordinate is closed keeps the entry
/// facts: everything else still has its covering entry, and the remaining
/// entries are still sane.
proof fn lemma_remove_entry(
    o: Seq<Node>,
    i: int,
    s: Set<Coord>,
    c: Set<Coord>,
    g: Map<Coord, usize>,
    goal: Coord,
)
    requires
        0 <= i < o.len(),
        forall|j: int| 0 <= j < o.len() ==> entry_ok(s, g, goal, #[trigger] o[j]),
        forall|w: Coord| #[trigger] g.dom().contains(w) && !c.contains(w) ==> has_entry(o, w, g[w]),
    ensures
        forall|j: int| 0 <= j < o.remove(i).len() ==> entry_ok(s, g, goal, #[trigger] o.remove(i)[j]),
        forall|w: Coord|
            #[trigger] g.dom().contains(w) && !c.contains(w) && w != coord_of(o[i]) ==> has_entry(
                o.remove(i),
                w,
                g[w],
            ),
{
    o.remove_ensures(i);
    assert forall|j: int| 0 <= j < o.remove(i).len() implies entry_ok(
        s,
        g,
        goal,
        #[trigger] o.remove(i)[j],
    ) by {
        if j < i {
            assert(o.remove(i)[j] == o[j]);
        } else {
            assert(o.remove(i)[j] == o[j + 1]);
        }
    }
    assert forall|w: Coord|
        #[trigger] g.dom().contains(w) && !c.contains(w) && w != coord_of(o[i]) implies has_entry(
        o.remove(i),
        w,
        g[w],
    ) by {
        let j = choose|j: int| 0 <= j < o.len() && coord_of(#[trigger] o[j]) == w && o[j].g == g[w];
        assert(j != i);
        if j < i {
            assert(o.remove(i)[j] == o[j]);
        } else {
            assert(o.remove(i)[j - 1] == o[j]);
        }
    }
}

/// When the least-key entry of the open set is popped and its coordinate is
/// not yet closed, its recorded cost is optimal: no path from the start to
/// it is shorter.  This is the heart of A* with a consistent heuristic.
proof fn lemma_pop_optimal(
    s: Set<Coord>,
    c: Set<Coord>,
    g: Map<Coord, usize>,
    par: Map<Coord, Coord>,
    o: Seq<Node>,
    start: Coord,
    goal: Coord,
    e: Node,
    idx: int,
)
    requires
        inv_search(s, c, g, par, o, start, goal),
        0 <= idx < o.len(),
        o[idx] == e,
        forall|j: int| 0 <= j < o.len() ==> key_le(e, #[trigger] o[j]),
        !c.contains(coord_of(e)),
    ensures
        min_cost(s, start, coord_of(e), g[coord_of(e)] as int),
{
    reveal(inv_base);
    reveal(min_cost);
    let w = coord_of(e);
    assert(entry_ok(s, g, goal, o[idx]));
    assert forall|p: Seq<Coord>| is_path(p, s, start, w) implies p.len() >= g[w] + 1 by {
        if p.len() < g[w] + 1 {
            if w == start {
                assert(g[w] == 0);
                assert(false);
            } else if c.len() == 0 {
                assert(coord_of(o[0]) == start);
                assert(idx == 0 ==> w == start);
                assert(idx == 0);
                assert(false);
            } else {
                assert(c.contains(start));
                assert(!c.contains(p[p.len() - 1]));
                let i = lemma_first_outside(p, c);
                let u = p[i - 1];
                let v = p[i];
                assert(c.contains(u));
                assert(adjacent(u, v));
                assert(s.contains(v));
                assert(expanded_to(s, g, u));
                assert(g.dom().contains(v) && g[v] <= g[u] + 1);
                lemma_path_prefix(p, s, start, w, i - 1);
                let pu = p.subrange(0, i);
                assert(is_path(pu, s, start, u));
                assert(min_cost(s, start, u, g[u] as int));
                assert(pu.len() >= g[u] + 1);
                assert(g[u] <= i - 1);
                assert(g[v] <= i);
                assert(!c.contains(v));
                assert(has_entry(o, v, g[v]));
                let j = choose|j: int|
                    0 <= j < o.len() && coord_of(#[trigger] o[j]) == v && o[j].g == g[v];
                let n = o[j];
                assert(entry_ok(s, g, goal, n));
                assert(n.h == hex_dist(v, goal));
                assert(key_le(e, n));
                lemma_path_suffix(p, s, start, w, i);
                let pv = p.subrange(i, p.len() as int);
                lemma_path_len_ge_dist(pv, s, v, w);
                assert(hex_dist(v, w) <= p.len() - 1 - i);
                lemma_hex_dist_triangle(v, w, goal);
                assert(e.g + e.h >= g[w] + hex_dist(w, goal));
                assert(n.g + n.h <= i + (p.len() - 1 - i) + hex_dist(w, goal));
                assert(g[w] + hex_dist(w, goal) <= p.len() - 1 + hex_dist(w, goal));
                assert(false);
            }
        }
    }
}

/// When the open set runs dry without reaching the goal, no path exists:
/// the closed set is closed under traversable adjacency and separates the
/// start from the goal.
proof fn lemma_exhausted(
    s: Set<Coord>,
    c: Set<Coord>,
    g: Map<Coord, usize>,
    par: Map<Coord, Coord>,
    o: Seq<Node>,
    start: Coord,
    goal: Coord,
)
    requires
        inv_search(s, c, g, par, o, start, goal),
        o.len() == 0,
    ensures
        !reachable(s, start, goal),
{
    reveal(inv_base);
    if reachable(s, start, goal) {
        let p = choose|p: Seq<Coord>| is_path(p, s, start, goal);
        assert(c.len() != 0);
        assert(c.contains(start));
        assert(!c.contains(p[p.len() - 1]));
        let i = lemma_first_outside(p, c);
        let u = p[i - 1];
        let v = p[i];
        assert(c.contains(u));
        assert(expanded_to(s, g, u));
        assert(adjacent(u, v));
        assert(s.contains(v));
        assert(g.dom().contains(v));
        assert(!c.contains(v));
        assert(has_entry(o, v, g[v]));
        let j = choose|j: int| 0 <= j < o.len() && coord_of(#[trigger] o[j]) == v && o[j].g == g[v];
        assert(false);
    }
}

/// Recording a strictly better cost and parent for `nb` (a traversable,
/// unclosed neighbor of the closed coordinate `w`) and pushing a matching
/// entry keeps the base search invariant.
#[verifier::rlimit(100)]
proof fn lemma_relax_update(
    s: Set<Coord>,
    c: Set<Coord>,
    g0: Map<Coord, usize>,
    par0: Map<Coord, Coord>,
    o0: Seq<Node>,
    start: Coord,
    goal: Coord,
    w: Coord,
    nb: Coord,
    nd: Node,
)
    requires
        inv_base(s, c, g0, par0, o0, start, goal),
        c.contains(w),
        g0.dom().contains(w),
        adjacent(w, nb),
        s.contains(nb),
        !c.contains(nb),
        g0.dom().contains(nb) ==> g0[w] + 1 < g0[nb],
        g0[w] < usize::MAX,
        coord_of(nd) == nb,
        nd.g == g0[w] + 1,
        nd.h == hex_dist(nb, goal),
    ensures
        inv_base(
            s,
            c,
            g0.insert(nb, (g0[w] + 1) as usize),
            par0.insert(nb, w),
            o0.push(nd),
            start,
            goal,
        ),
{
    reveal(inv_base);
    let tentative = (g0[w] + 1) as usize;
    let g1 = g0.insert(nb, tentative);
    let par1 = par0.insert(nb, w);
    let o1 = o0.push(nd);
    assert(g0[w] + 1 <= c.len());
    assert(nb != start) by {
        if nb == start {
            assert(g0[start] == 0);
        }
    }
    // parent chain
    assert forall|y: Coord| #[trigger] g1.dom().contains(y) implies y == start || (
    par1.dom().contains(y) && c.contains(par1[y]) && g1.dom().contains(par1[y]) && adjacent(
        par1[y],
        y,
    ) && g1[y] == g1[par1[y]] + 1) by {
        if y == nb {
            assert(par1[nb] == w);
            assert(c.contains(w));
            assert(w != nb);
            assert(g1[w] == g0[w]);
        } else if y != start {
            assert(g0.dom().contains(y));
            assert(c.contains(par0[y]));
            assert(par0[y] != nb);
            assert(par1[y] == par0[y]);
            assert(g1[y] == g0[y] && g1[par0[y]] == g0[par0[y]]);
        }
    }
    // realizability
    assert forall|y: Coord| #[trigger] g1.dom().contains(y) implies cost_realizable(
        s,
        start,
        y,
        g1[y] as int,
    ) by {
        if y == nb {
            assert(cost_realizable(s, start, w, g0[w] as int));
            assert(cost_realizable(s, start, nb, g1[nb] as int)) by {
                reveal(cost_realizable);
                let pw = choose|p: Seq<Coord>| is_path(p, s, start, w) && p.len() == g0[w] + 1;
                lemma_path_extend(pw, s, start, w, nb);
                assert(is_path(pw.push(nb), s, start, nb) && pw.push(nb).len() == g1[nb] + 1);
            }
        } else {
            assert(g0.dom().contains(y));
            assert(g1[y] == g0[y]);
        }
    }
    // closed optimality unchanged
    assert forall|v: Coord| #[trigger] c.contains(v) implies min_cost(s, start, v, g1[v] as int) by {
        assert(v != nb);
        assert(g1[v] == g0[v]);
    }
    // open covering
    assert forall|y: Coord| #[trigger] g1.dom().contains(y) && !c.contains(y) implies has_entry(
        o1,
        y,
        g1[y],
    ) by {
        if y == nb {
            assert(coord_of(o1[o1.len() - 1]) == nb && o1[o1.len() - 1].g == tentative);
        } else {
            assert(g0.dom().contains(y));
            assert(has_entry(o0, y, g0[y]));
            let j = choose|j: int|
                0 <= j < o0.len() && coord_of(#[trigger] o0[j]) == y && o0[j].g == g0[y];
            assert(o1[j] == o0[j]);
            assert(g1[y] == g0[y]);
        }
    }
    // entries stay sane
    assert forall|j: int| 0 <= j < o1.len() implies entry_ok(s, g1, goal, #[trigger] o1[j]) by {
        if j < o0.len() {
            assert(o1[j] == o0[j]);
            assert(entry_ok(s, g0, goal, o0[j]));
            if coord_of(o0[j]) == nb {
                assert(g1[nb] <= g0[nb]);
            } else {
                assert(g1[coord_of(o0[j])] == g0[coord_of(o0[j])]);
            }
        } else {
            assert(o1[j] == nd);
        }
    }
    // cost bounds
    assert forall|v: Coord| #[trigger] c.contains(v) implies g1[v] + 1 <= c.len() by {
        assert(v != nb);
        assert(g1[v] == g0[v]);
    }
    assert forall|y: Coord| #[trigger] g1.dom().contains(y) implies g1[y] <= c.len() by {
        if y != nb {
            assert(g0.dom().contains(y) && g1[y] == g0[y]);
        }
    }
    assert(c.len() != 0);
}

/// Relax one traversable, unclosed neighbor `nb` of the freshly closed `w`:
/// record a better cost and parent when one is found, and push an entry.
fn relax(
    terrain: &CoordSet,
    closed: &CoordSet,
    g_scores: &mut CoordMap<usize>,
    parents: &mut CoordMap<Coord>,
    open: &mut Vec<Node>,
    w: Coord,
    gw: usize,
    nb: Coord,
    start: Coord,
    goal: Coord,
)
    requires
        terrain.wf(),
        closed.wf(),
        old(g_scores).wf(),
        old(parents).wf(),
        forall|x: Coord| terrain@.contains(x) ==> coord_ok(x),
        coord_ok(goal),
        inv_base(terrain@, closed@, old(g_scores)@, old(parents)@, old(open)@, start, goal),
        closed@.contains(w),
        old(g_scores)@.dom().contains(w),
        old(g_scores)@[w] == gw,
        gw < usize::MAX,
        adjacent(w, nb),
        terrain@.contains(nb),
        !closed@.contains(nb),
    ensures
        final(g_scores).wf(),
        final(parents).wf(),
        inv_base(terrain@, closed@, final(g_scores)@, final(parents)@, final(open)@, start, goal),
        final(g_scores)@.dom().contains(nb),
        final(g_scores)@[nb] <= gw + 1,
        forall|x: Coord|
            old(g_scores)@.dom().contains(x) ==> final(g_scores)@.dom().contains(x)
                && final(g_scores)@[x] <= old(g_scores)@[x],
        forall|x: Coord|
            #[trigger] closed@.contains(x) ==> final(g_scores)@[x] == old(g_scores)@[x],
        final(g_scores)@[w] == gw,
{
    let ghost s = terrain@;
    let ghost c = closed@;
    let ghost g0 = g_scores@;
    let tentative: usize = gw + 1;
    let cur = g_scores.get(nb);
    let better: bool = match cur {
        Some(cg) => tentative < cg,
        None => true,
    };
    if better {
        let h = hex_distance(nb.0, nb.1, goal.0, goal.1);
        let nd = Node { q: nb.0, r: nb.1, g: tentative, h };
        proof {
            lemma_relax_update(s, c, g0, parents@, open@, start, goal, w, nb, nd);
        }
        g_scores.insert(nb, tentative);
        parents.insert(nb, w);
        open.push(nd);
        proof {
            let g1 = g_scores@;
            assert(g1 =~= g0.insert(nb, tentative));
            assert forall|x: Coord| g0.dom().contains(x) implies g1.dom().contains(x) && g1[x]
                <= g0[x] by {
                if x != nb {
                    assert(g1[x] == g0[x]);
                }
            }
            assert forall|x: Coord| #[trigger] c.contains(x) implies g1[x] == g0[x] by {
                assert(x != nb);
            }
        }
    } else {
        proof {
            assert(g_scores@.dom().contains(nb));
            assert(g_scores@[nb] <= gw + 1);
        }
    }
}

/// Popping a stale entry (one whose coordinate is already closed) keeps the
/// whole search invariant.
proof fn lemma_stale_step(
    s: Set<Coord>,
    c: Set<Coord>,
    g: Map<Coord, usize>,
    par: Map<Coord, Coord>,
    o: Seq<Node>,
    idx: int,
    start: Coord,
    goal: Coord,
)
    requires
        inv_search(s, c, g, par, o, start, goal),
        0 <= idx < o.len(),
        c.contains(coord_of(o[idx])),
    ensures
        inv_search(s, c, g, par, o.remove(idx), start, goal),
{
    reveal(inv_base);
    lemma_remove_entry(o, idx, s, c, g, goal);
    assert(c.remove(coord_of(o[idx])).len() == c.len() - 1);
    assert(c.len() != 0);
    assert forall|w: Coord|
        #[trigger] g.dom().contains(w) && !c.contains(w) implies has_entry(
        o.remove(idx),
        w,
        g[w],
    ) by {
        assert(w != coord_of(o[idx]));
    }
}

/// Closing the freshly popped coordinate `w` keeps the base invariant on
/// the popped open set, proves `w`'s recorded cost optimal, and leaves only
/// `w`'s own neighbors to relax.
#[verifier::rlimit(100)]
#[verifier::spinoff_prover]
proof fn lemma_close_step(
    s: Set<Coord>,
    c: Set<Coord>,
    g: Map<Coord, usize>,
    par: Map<Coord, Coord>,
    o: Seq<Node>,
    idx: int,
    start: Coord,
    goal: Coord,
    e: Node,
)
    requires
        inv_search(s, c, g, par, o, start, goal),
        0 <= idx < o.len(),
        o[idx] == e,
        forall|j: int| 0 <= j < o.len() ==> key_le(e, #[trigger] o[j]),
        !c.contains(coord_of(e)),
        coord_of(e) != goal,
        s.len() <= usize::MAX,
    ensures
        inv_base(s, c.insert(coord_of(e)), g, par, o.remove(idx), start, goal),
        forall|v: Coord|
            #[trigger] c.insert(coord_of(e)).contains(v) && v != coord_of(e) ==> expanded_to(
                s,
                g,
                v,
            ),
        min_cost(s, start, coord_of(e), g[coord_of(e)] as int),
        g.dom().contains(coord_of(e)),
        s.contains(coord_of(e)),
        g[coord_of(e)] < usize::MAX,
        c.insert(coord_of(e)).len() == c.len() + 1,
        c.insert(coord_of(e)).len() <= s.len(),
        c.insert(coord_of(e)).contains(coord_of(e)),
{
    reveal(inv_base);
    assert(entry_ok(s, g, goal, o[idx]));
    lemma_pop_optimal(s, c, g, par, o, start, goal, e, idx);
    lemma_remove_entry(o, idx, s, c, g, goal);
    let w = coord_of(e);
    let c1 = c.insert(w);
    let o1 = o.remove(idx);
    assert(c1.len() == c.len() + 1);
    vstd::set_lib::lemma_len_subset(c1, s);
    assert(g[w] <= c.len());
    assert(g[w] < usize::MAX) by {
        assert(c.len() + 1 == c1.len() <= s.len());
    }
    assert forall|y: Coord| #[trigger] g.dom().contains(y) implies y == start || (
    par.dom().contains(y) && c1.contains(par[y]) && g.dom().contains(par[y]) && adjacent(par[y], y)
        && g[y] == g[par[y]] + 1) by {
        if y != start {
            assert(c.contains(par[y]));
        }
    }
    assert forall|v: Coord| #[trigger] c1.contains(v) implies min_cost(s, start, v, g[v] as int) by {
        if v != w {
            assert(c.contains(v));
        }
    }
    assert forall|x: Coord| #[trigger] g.dom().contains(x) && !c1.contains(x) implies has_entry(
        o1,
        x,
        g[x],
    ) by {
        assert(x != w && !c.contains(x));
    }
    assert forall|v: Coord| #[trigger] c1.contains(v) implies g[v] + 1 <= c1.len() by {
        if v == w {
            assert(g[w] <= c.len());
        } else {
            assert(c.contains(v));
            assert(g[v] + 1 <= c.len());
        }
    }
    assert forall|x: Coord| #[trigger] g.dom().contains(x) implies g[x] <= c1.len() by {
        assert(g[x] <= c.len());
    }
    assert(c1.contains(start)) by {
        if c.len() == 0 {
            assert(coord_of(o[0]) == start);
            assert(idx == 0);
        } else {
            assert(c.contains(start));
        }
    }
    assert(c1.len() != 0);
    assert forall|v: Coord| #[trigger] c1.contains(v) && v != w implies expanded_to(s, g, v) by {
        assert(c.contains(v));
    }
}

/// A closed neighbor of a coordinate with a recorded cost is itself cheap
/// to reach: its optimal cost is at most one step more.
proof fn lemma_closed_neighbor_bound(
    s: Set<Coord>,
    c: Set<Coord>,
    g: Map<Coord, usize>,
    w: Coord,
    nb: Coord,
    start: Coord,
)
    requires
        g.dom().contains(w),
        cost_realizable(s, start, w, g[w] as int),
        c.contains(nb),
        c.subset_of(g.dom()),
        min_cost(s, start, nb, g[nb] as int),
        adjacent(w, nb),
        s.contains(nb),
    ensures
        g.dom().contains(nb),
        g[nb] <= g[w] + 1,
{
    reveal(cost_realizable);
    reveal(min_cost);
    let pw = choose|p: Seq<Coord>| is_path(p, s, start, w) && p.len() == g[w] + 1;
    lemma_path_extend(pw, s, start, w, nb);
    assert(is_path(pw.push(nb), s, start, nb));
    assert(pw.push(nb).len() >= g[nb] + 1);
}

/// Relaxation only improves recorded costs, so an already fully relaxed
/// closed coordinate stays fully relaxed.
proof fn lemma_expanded_monotone(
    s: Set<Coord>,
    g0: Map<Coord, usize>,
    g1: Map<Coord, usize>,
    v: Coord,
)
    requires
        expanded_to(s, g0, v),
        forall|x: Coord| g0.dom().contains(x) ==> g1.dom().contains(x) && g1[x] <= g0[x],
        g1[v] == g0[v],
    ensures
        expanded_to(s, g1, v),
{
    assert forall|x: Coord|
        s.contains(x) && #[trigger] adjacent(v, x) implies g1.dom().contains(x) && g1[x] <= g1[v]
        + 1 by {
        assert(g0.dom().contains(x) && g0[x] <= g0[v] + 1);
    }
}

/// A* shortest path between two coordinates through a traversable set.
/// Fails exactly when no walk through the set joins them (in particular
/// when either endpoint is not itself traversable); a found path starts at
/// the start, ends at the goal, stays traversable, steps between hex
/// neighbors, and no shorter such path exists.  Equal start and goal in the
/// set yield the one-coordinate trivial path.
#[verifier::rlimit(100)]
pub fn hex_astar(
    start_q: i32,
    start_r: i32,
    goal_q: i32,
    goal_r: i32,
    valid_terrain: &CoordSet,
) -> (res: Option<Vec<Coord>>)
    requires
        valid_terrain.wf(),
        forall|x: Coord| valid_terrain@.contains(x) ==> coord_ok(x),
        coord_ok((start_q, start_r)),
        coord_ok((goal_q, goal_r)),
    ensures
        res.is_some() <==> reachable(valid_terrain@, (start_q, start_r), (goal_q, goal_r)),
        res matches Some(p) ==> is_path(p@, valid_terrain@, (start_q, start_r), (goal_q, goal_r))
            && forall|q: Seq<Coord>|
            is_path(q, valid_terrain@, (start_q, start_r), (goal_q, goal_r)) ==> q.len()
                >= p@.len(),
{
    let start = (start_q, start_r);
    let goal = (goal_q, goal_r);
    let ghost s = valid_terrain@;
    if !valid_terrain.contains(start) || !valid_terrain.contains(goal) {
        proof {
            if reachable(s, start, goal) {
                let p = choose|p: Seq<Coord>| is_path(p, s, start, goal);
                assert(s.contains(p[0]) && s.contains(p[p.len() - 1]));
            }
        }
        return None;
    }
    if start_q == goal_q && start_r == goal_r {
        let mut one: Vec<Coord> = Vec::new();
        one.push(start);
        proof {
            assert(is_path(one@, s, start, goal));
        }
        return Some(one);
    }
    let total = valid_terrain.len();
    let mut closed = CoordSet::new();
    let mut g_scores: CoordMap<usize> = CoordMap::new();
    let mut parents: CoordMap<Coord> = CoordMap::new();
    let mut open: Vec<Node> = Vec::new();
    let h0 = hex_distance(start_q, start_r, goal_q, goal_r);
    g_scores.insert(start, 0);
    open.push(Node { q: start_q, r: start_r, g: 0, h: h0 });
    proof {
        reveal(inv_base);
        valid_terrain.lemma_items();
        assert(g_scores@.dom() =~= Set::<Coord>::empty().insert(start));
        assert(cost_realizable(s, start, start, 0)) by {
            reveal(cost_realizable);
            assert(is_path(seq![start], s, start, start) && seq![start].len() == 0 + 1);
        }
        assert(coord_of(open@[0]) == start && open@[0].g == 0);
        assert(has_entry(open@, start, 0));
        assert(inv_base(s, closed@, g_scores@, parents@, open@, start, goal));
        assert(inv_search(s, closed@, g_scores@, parents@, open@, start, goal));
    }
    while open.len() > 0
        invariant
            valid_terrain.wf(),
            closed.wf(),
            g_scores.wf(),
            parents.wf(),
            s == valid_terrain@,
            forall|x: Coord| s.contains(x) ==> coord_ok(x),
            coord_ok(start),
            coord_ok(goal),
            start == (start_q, start_r),
            goal == (goal_q, goal_r),
            s.contains(start),
            s.contains(goal),
            start != goal,
            total == s.len(),
            closed@.len() <= total,
            inv_search(s, closed@, g_scores@, parents@, open@, start, goal),
        decreases total - closed@.len(), open@.len(),
    {
        let ghost o_pre = open@;
        let e = pop_min(&mut open);
        let w = (e.q, e.r);
        let ghost idx = choose|i: int|
            0 <= i < o_pre.len() && o_pre[i] == e && #[trigger] o_pre.remove(i) == open@;
        proof {
            assert(coord_of(e) == w);
        }
        if closed.contains(w) {
            proof {
                lemma_stale_step(s, closed@, g_scores@, parents@, o_pre, idx, start, goal);
            }
        } else if e.q == goal_q && e.r == goal_r {
            proof {
                reveal(inv_base);
                assert(entry_ok(s, g_scores@, goal, o_pre[idx]));
                lemma_pop_optimal(s, closed@, g_scores@, parents@, o_pre, start, goal, e, idx);
            }
            let gw = g_scores.get(w).unwrap();
            let mut rev: Vec<Coord> = Vec::new();
            rev.push(w);
            let mut cur: Coord = w;
            let mut curg: usize = gw;
            proof {
                reveal(inv_base);
                assert(is_path(rev@, s, goal, cur));
            }
            while !(cur.0 == start_q && cur.1 == start_r)
                invariant
                    g_scores.wf(),
                    parents.wf(),
                    s == valid_terrain@,
                    start == (start_q, start_r),
                    goal == (goal_q, goal_r),
                    g_scores@.dom().subset_of(s),
                    g_scores@.dom().contains(start),
                    g_scores@[start] == 0,
                    forall|y: Coord|
                        #[trigger] g_scores@.dom().contains(y) ==> y == start || (
                        parents@.dom().contains(y) && g_scores@.dom().contains(parents@[y])
                            && adjacent(parents@[y], y) && g_scores@[y] == g_scores@[parents@[y]]
                            + 1),
                    g_scores@.dom().contains(cur),
                    curg == g_scores@[cur],
                    curg <= gw,
                    is_path(rev@, s, goal, cur),
                    rev@.len() == gw - curg + 1,
                decreases curg,
            {
                proof {
                    assert(g_scores@.dom().contains(cur));
                    assert(cur != start);
                }
                let pr = parents.get(cur).unwrap();
                proof {
                    assert(adjacent(pr, cur));
                    lemma_adjacent_symmetric(pr, cur);
                    assert(s.contains(pr));
                    lemma_path_extend(rev@, s, goal, cur, pr);
                }
                rev.push(pr);
                curg = curg - 1;
                cur = pr;
            }
            proof {
                assert(cur == start);
                assert(curg == 0);
                assert(rev@.len() == gw + 1);
                assert(is_path(rev@, s, goal, start));
                lemma_path_reverse(rev@, s, goal, start);
            }
            let mut path: Vec<Coord> = Vec::new();
            let mut k2: usize = rev.len();
            while k2 > 0
                invariant
                    0 <= k2 <= rev@.len(),
                    path@.len() == rev@.len() - k2,
                    forall|m: int|
                        0 <= m < path@.len() ==> #[trigger] path@[m] == rev@[rev@.len() - 1 - m],
                decreases k2,
            {
                k2 -= 1;
                path.push(rev[k2]);
            }
            proof {
                assert(path@ =~= rev@.reverse());
                assert(is_path(path@, s, start, goal));
                assert(path@.len() == gw + 1);
                assert(min_cost(s, start, goal, gw as int));
                reveal(min_cost);
            }
            return Some(path);
        } else {
            let ghost c_old = closed@;
            proof {
                lemma_close_step(s, closed@, g_scores@, parents@, o_pre, idx, start, goal, e);
            }
            closed.insert(w);
            let gw = g_scores.get(w).unwrap();
            let ghost g_closed = g_scores@;
            let ns = get_hex_neighbors(e.q, e.r);
            let mut k: usize = 0;
            while k < 6
                invariant
                    valid_terrain.wf(),
                    closed.wf(),
                    g_scores.wf(),
                    parents.wf(),
                    s == valid_terrain@,
                    forall|x: Coord| s.contains(x) ==> coord_ok(x),
                    coord_ok(start),
                    coord_ok(goal),
                    start == (start_q, start_r),
                    goal == (goal_q, goal_r),
                    s.contains(start),
                    s.contains(goal),
                    start != goal,
                    total == s.len(),
                    w == (e.q, e.r),
                    closed@ == c_old.insert(w),
                    closed@.len() == c_old.len() + 1,
                    closed@.len() <= total,
                    closed@.contains(w),
                    g_scores@.dom().contains(w),
                    g_scores@[w] == gw,
                    gw < usize::MAX,
                    ns@.len() == 6,
                    forall|m: int| 0 <= m < 6 ==> adjacent(w, #[trigger] ns@[m]),
                    forall|x: Coord| adjacent(w, x) ==> ns@.contains(x),
                    inv_base(s, closed@, g_scores@, parents@, open@, start, goal),
                    forall|v: Coord|
                        #[trigger] closed@.contains(v) && v != w ==> expanded_to(s, g_scores@, v),
                    min_cost(s, start, w, g_scores@[w] as int),
                    forall|m: int|
                        0 <= m < k && s.contains(#[trigger] ns@[m]) ==> g_scores@.dom().contains(
                            ns@[m],
                        ) && g_scores@[ns@[m]] <= gw + 1,
                    0 <= k <= 6,
                decreases 6 - k,
            {
                let nb = ns[k];
                let ghost g_pre = g_scores@;
                if valid_terrain.contains(nb) {
                    if closed.contains(nb) {
                        proof {
                            reveal(inv_base);
                            lemma_closed_neighbor_bound(s, closed@, g_scores@, w, nb, start);
                        }
                    } else {
                        relax(
                            valid_terrain,
                            &closed,
                            &mut g_scores,
                            &mut parents,
                            &mut open,
                            w,
                            gw,
                            nb,
                            start,
                            goal,
                        );
                        proof {
                            assert forall|v: Coord|
                                #[trigger] closed@.contains(v) && v != w implies expanded_to(
                                s,
                                g_scores@,
                                v,
                            ) by {
                                lemma_expanded_monotone(s, g_pre, g_scores@, v);
                            }
                            assert forall|m: int|
                                0 <= m < k + 1 && s.contains(#[trigger] ns@[m]) implies g_scores@
                                .dom().contains(ns@[m]) && g_scores@[ns@[m]] <= gw + 1 by {
                                if m < k {
                                    assert(g_pre.dom().contains(ns@[m]) && g_pre[ns@[m]] <= gw
                                        + 1);
                                }
                            }
                            assert(g_scores@[w] == g_pre[w]);
                            assert(min_cost(s, start, w, g_scores@[w] as int));
                        }
                    }
                }
                k += 1;
            }
            proof {
                assert(expanded_to(s, g_scores@, w)) by {
                    assert forall|x: Coord|
                        s.contains(x) && #[trigger] adjacent(w, x) implies g_scores@.dom().contains(
                        x,
                    ) && g_scores@[x] <= g_scores@[w] + 1 by {
                        assert(ns@.contains(x));
                        let m = choose|m: int| 0 <= m < 6 && ns@[m] == x;
                        assert(s.contains(ns@[m]));
                    }
                }
                assert forall|v: Coord| #[trigger] closed@.contains(v) implies expanded_to(
                    s,
                    g_scores@,
                    v,
                ) by {
                    if v != w {
                        assert(expanded_to(s, g_scores@, v));
                    }
                }
                assert(inv_search(s, closed@, g_scores@, parents@, open@, start, goal));
            }
        }
    }
    proof {
        lemma_exhausted(s, closed@, g_scores@, parents@, open@, start, goal);
    }
    None
}

/// A path that no other path undercuts visits no coordinate twice — a
/// repeat could be cut out to give a shorter path — and so cannot be longer
/// than the traversable set itself.
proof fn lemma_shortest_path_no_dup(p: Seq<Coord>, s: Set<Coord>, a: Coord, b: Coord)
    requires
        s.finite(),
        is_path(p, s, a, b),
        forall|q: Seq<Coord>| is_path(q, s, a, b) ==> q.len() >= p.len(),
    ensures
        p.no_duplicates(),
        p.len() <= s.len(),
{
    assert forall|i: int, j: int| 0 <= i < j < p.len() implies p[i] != p[j] by {
        if p[i] == p[j] {
            if j == p.len() - 1 {
                lemma_path_prefix(p, s, a, b, i);
                assert(is_path(p.subrange(0, i + 1), s, a, b));
            } else {
                let q = p.subrange(0, i + 1) + p.subrange(j + 1, p.len() as int);
                assert forall|m: int| 0 <= m < q.len() implies s.contains(#[trigger] q[m]) by {
                    if m <= i {
                        assert(q[m] == p[m]);
                    } else {
                        assert(q[m] == p[j + m - i]);
                    }
                }
                assert forall|m: int| 0 <= m < q.len() - 1 implies adjacent(
                    #[trigger] q[m],
                    q[m + 1],
                ) by {
                    if m + 1 <= i {
                        assert(q[m] == p[m] && q[m + 1] == p[m + 1]);
                        assert(adjacent(p[m], p[m + 1]));
                    } else if m + 1 == i + 1 {
                        assert(q[m] == p[i] && q[m + 1] == p[j + 1]);
                        assert(adjacent(p[j], p[j + 1]));
                    } else {
                        assert(q[m] == p[j + m - i] && q[m + 1] == p[j + m - i + 1]);
                        assert(adjacent(p[j + m - i], p[j + m - i + 1]));
                    }
                }
                assert(q[0] == a && q[q.len() - 1] == b);
                assert(is_path(q, s, a, b));
            }
        }
    }
    assert forall|x: Coord| p.to_set().contains(x) implies s.contains(x) by {
        let m = choose|m: int| 0 <= m < p.len() && p[m] == x;
        assert(s.contains(p[m]));
    }
    p.unique_seq_to_set();
    vstd::set_lib::lemma_len_subset(p.to_set(), s);
}

/// The number of hex steps of the shortest traversable path between two
/// coordinates, or `-1` when no path exists (in particular when either
/// endpoint is not itself traversable).
pub fn hex_astar_path(
    start_q: i32,
    start_r: i32,
    goal_q: i32,
    goal_r: i32,
    roads: &CoordSet,
) -> (len: i32)
    requires
        roads.wf(),
        forall|x: Coord| roads@.contains(x) ==> coord_ok(x),
        coord_ok((start_q, start_r)),
        coord_ok((goal_q, goal_r)),
        roads@.len() < 0x7fff_ffff,
    ensures
        len >= 0 <==> reachable(roads@, (start_q, start_r), (goal_q, goal_r)),
        len < 0 ==> len == -1,
        len >= 0 ==> (exists|p: Seq<Coord>|
            is_path(p, roads@, (start_q, start_r), (goal_q, goal_r)) && p.len() == len + 1) && (
        forall|q: Seq<Coord>|
            is_path(q, roads@, (start_q, start_r), (goal_q, goal_r)) ==> q.len() >= len + 1),
{
    match hex_astar(start_q, start_r, goal_q, goal_r, roads) {
        Some(p) => {
            proof {
                roads.lemma_items();
                lemma_shortest_path_no_dup(
                    p@,
                    roads@,
                    (start_q, start_r),
                    (goal_q, goal_r),
                );
            }
            (p.len() - 1) as i32
        },
        None => -1,
    }
}

/// The shortest path between two road points, excluding the start and
/// including the end: what a caller extending an existing network lays
/// down.  No result when the points cannot be joined, or when they are the
/// same point (nothing to lay down).
pub fn build_path_between_roads(
    start_q: i32,
    start_r: i32,
    end_q: i32,
    end_r: i32,
    valid_terrain: &CoordSet,
) -> (res: Option<Vec<Coord>>)
    requires
        valid_terrain.wf(),
        forall|x: Coord| valid_terrain@.contains(x) ==> coord_ok(x),
        coord_ok((start_q, start_r)),
        coord_ok((end_q, end_r)),
    ensures
        res.is_some() <==> reachable(valid_terrain@, (start_q, start_r), (end_q, end_r)) && (
        start_q, start_r) != (end_q, end_r),
        res matches Some(t) ==> t@.len() >= 1 && is_path(
            seq![(start_q, start_r)] + t@,
            valid_terrain@,
            (start_q, start_r),
            (end_q, end_r),
        ) && forall|q: Seq<Coord>|
            is_path(q, valid_terrain@, (start_q, start_r), (end_q, end_r)) ==> q.len() >= t@.len()
                + 1,
{
    let ghost s = valid_terrain@;
    let ghost start = (start_q, start_r);
    let ghost goal = (end_q, end_r);
    match hex_astar(start_q, start_r, end_q, end_r, valid_terrain) {
        Some(p) => {
            if p.len() < 2 {
                proof {
                    assert(p@[0] == start && p@[p@.len() - 1] == goal);
                    assert(start == goal);
                }
                None
            } else {
                let mut tail: Vec<Coord> = Vec::new();
                let mut k: usize = 1;
                while k < p.len()
                    invariant
                        1 <= k <= p@.len(),
                        tail@ == p@.subrange(1, k as int),
                    decreases p@.len() - k,
                {
                    proof {
                        assert(p@.subrange(1, k + 1) =~= p@.subrange(1, k as int).push(
                            p@[k as int],
                        ));
                    }
                    tail.push(p[k]);
                    k += 1;
                }
                proof {
                    assert(tail@ =~= p@.subrange(1, p@.len() as int));
                    assert(seq![start] + tail@ =~= p@);
                    assert(start != goal) by {
                        if start == goal {
                            assert(is_path(seq![start], s, start, goal));
                            assert(seq![start].len() >= p@.len());
                        }
                    }
                }
                Some(tail)
            }
        },
        None => None,
    }
}

/// Whether a set of road coordinates is mutually connected: every member
/// can reach every other member through the set.  Zero or one member is
/// trivially connected.  The check walks every member from one arbitrary
/// source, which suffices because reachability through an undirected hex
/// graph is symmetric and transitive.
pub fn validate_road_connectivity(roads: &Vec<Coord>) -> (ok: bool)
    requires
        forall|i: int| 0 <= i < roads@.len() ==> coord_ok(#[trigger] roads@[i]),
        roads@.len() < 0x7fff_ffff,
    ensures
        ok == set_connected(roads@.to_set()),
{
    let rs = CoordSet::from_vec(roads);
    let ghost s = roads@.to_set();
    proof {
        rs.lemma_items();
        assert forall|x: Coord| s.contains(x) implies coord_ok(x) by {
            let i = choose|i: int| 0 <= i < roads@.len() && roads@[i] == x;
            assert(coord_ok(roads@[i]));
        }
    }
    if roads.len() <= 1 {
        proof {
            assert forall|a: Coord, b: Coord|
                s.contains(a) && s.contains(b) implies #[trigger] reachable(s, a, b) by {
                assert(a == b) by {
                    if a != b {
                        let ia = choose|i: int| 0 <= i < roads@.len() && roads@[i] == a;
                        let ib = choose|i: int| 0 <= i < roads@.len() && roads@[i] == b;
                        assert(ia != ib);
                    }
                }
                lemma_reachable_refl(s, a);
            }
        }
        return true;
    }
    let source = roads[0];
    proof {
        assert(s.contains(source));
        lemma_reachable_refl(s, source);
        roads@.lemma_cardinality_of_set();
    }
    let mut i: usize = 1;
    while i < roads.len()
        invariant
            forall|j: int| 0 <= j < roads@.len() ==> coord_ok(#[trigger] roads@[j]),
            roads@.len() < 0x7fff_ffff,
            rs.wf(),
            rs@ == s,
            s == roads@.to_set(),
            s.len() < 0x7fff_ffff,
            forall|x: Coord| s.contains(x) ==> coord_ok(x),
            2 <= roads@.len(),
            source == roads@[0],
            s.contains(source),
            1 <= i <= roads@.len(),
            forall|j: int| 0 <= j < i ==> reachable(s, source, #[trigger] roads@[j]),
        decreases roads@.len() - i,
    {
        let target = roads[i];
        let path_length = hex_astar_path(source.0, source.1, target.0, target.1, &rs);
        if path_length == -1 {
            proof {
                assert(s.contains(roads@[i as int]));
                assert(!reachable(s, source, target));
                assert(!set_connected(s));
            }
            return false;
        }
        proof {
            lemma_reachable_refl(s, source);
        }
        i += 1;
    }
    proof {
        assert forall|a: Coord, b: Coord|
            s.contains(a) && s.contains(b) implies #[trigger] reachable(s, a, b) by {
            let ia = choose|j: int| 0 <= j < roads@.len() && roads@[j] == a;
            let ib = choose|j: int| 0 <= j < roads@.len() && roads@[j] == b;
            assert(reachable(s, source, a)) by {
                if ia == 0 {
                    lemma_reachable_refl(s, source);
                } else {
                    assert(reachable(s, source, roads@[ia]));
                }
            }
            assert(reachable(s, source, b)) by {
                if ib == 0 {
                    lemma_reachable_refl(s, source);
                } else {
                    assert(reachable(s, source, roads@[ib]));
                }
            }
            lemma_reachable_symmetric(s, source, a);
            lemma_reachable_transitive(s, a, source, b);
        }
    }
    true
}

/// The shortest-path round trip: a path the pathfinder returns runs from
/// the start to the goal through traversable coordinates, steps only
/// between hex neighbors, and its step count equals the length the
/// length-only variant reports, since both are pinned to the minimum over
/// all paths.
pub proof fn lemma_shortest_path_round_trip(
    p: Seq<Coord>,
    n: int,
    s: Set<Coord>,
    start: Coord,
    goal: Coord,
)
    requires
        is_path(p, s, start, goal),
        forall|q: Seq<Coord>| is_path(q, s, start, goal) ==> q.len() >= p.len(),
        n >= 0,
        exists|q: Seq<Coord>| is_path(q, s, start, goal) && q.len() == n + 1,
        forall|q: Seq<Coord>| is_path(q, s, start, goal) ==> q.len() >= n + 1,
    ensures
        p[0] == start,
        p[p.len() - 1] == goal,
        forall|i: int| 0 <= i < p.len() ==> s.contains(#[trigger] p[i]),
        forall|i: int| 0 <= i < p.len() - 1 ==> adjacent(#[trigger] p[i], p[i + 1]),
        p.len() - 1 == n,
{
    let q = choose|q: Seq<Coord>| is_path(q, s, start, goal) && q.len() == n + 1;
    assert(q.len() >= p.len());
    assert(p.len() >= n + 1);
}

} // verus!
