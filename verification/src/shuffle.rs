//! Deterministic, content-seeded shuffling of coordinate lists.  The seed
//! is folded from the list itself, so the same list always shuffles the
//! same way — reproducibility is a hard requirement, not an optimization.

use vstd::prelude::*;

use crate::geometry::Coord;

verus! {

/// The 64-bit value a coordinate component contributes to the seed: its
/// two's-complement bit pattern.
pub open spec fn wrap_u64_of(x: i32) -> u64 {
    if x >= 0 {
        x as u64
    } else {
        (0x1_0000_0000_0000_0000 + x) as u64
    }
}

/// One step of the linear-congruential generator that drives the shuffle.
pub open spec fn lcg_next(state: u64) -> u64 {
    state.wrapping_mul(1103515245).wrapping_add(12345)
}

/// The seed folded from a coordinate list:
/// `seed = seed * 31 + (q * 17 + r)` in wrapping 64-bit arithmetic,
/// accumulated in list order.
pub open spec fn seed_fold(s: Seq<Coord>) -> u64
    decreases s.len(),
{
    if s.len() == 0 {
        0u64
    } else {
        let prev = seed_fold(s.drop_last());
        let c = s.last();
        prev.wrapping_mul(31).wrapping_add(
            wrap_u64_of(c.0).wrapping_mul(17).wrapping_add(wrap_u64_of(c.1)),
        )
    }
}

/// The Fisher–Yates walk from index `i` down to `1`: each step draws the
/// next generator state and swaps position `i` with a position `j <= i`.
pub open spec fn fisher_yates(s: Seq<Coord>, i: int, state: u64) -> (Seq<Coord>, u64)
    decreases i,
{
    if i < 1 {
        (s, state)
    } else {
        let st = lcg_next(state);
        let j = (st as int) % (i + 1);
        fisher_yates(s.update(i, s[j]).update(j, s[i]), i - 1, st)
    }
}

/// What shuffling a coordinate list yields.
pub open spec fn spec_shuffle(s: Seq<Coord>) -> Seq<Coord> {
    fisher_yates(s, s.len() - 1, seed_fold(s)).0
}

/// Swapping two positions of a sequence keeps its multiset of elements.
proof fn lemma_swap_multiset(s: Seq<Coord>, i: int, j: int)
    requires
        0 <= i < s.len(),
        0 <= j < s.len(),
    ensures
        s.update(i, s[j]).update(j, s[i]).to_multiset() == s.to_multiset(),
{
    broadcast use vstd::seq_lib::to_multiset_update;
    broadcast use vstd::seq_lib::group_to_multiset_ensures;
    broadcast use vstd::multiset::group_multiset_axioms;
    broadcast use vstd::multiset::group_multiset_properties;

    if i == j {
        assert(s.update(i, s[j]).update(j, s[i]) =~= s);
    } else {
        let s1 = s.update(i, s[j]);
        assert(s1[j] == s[j]);
        assert(s.contains(s[i]));
        assert(s.to_multiset().count(s[i]) > 0);
        assert(s1.update(j, s[i]).to_multiset() =~= s.to_multiset());
    }
}

/// The Fisher–Yates walk permutes the sequence: length and multiset are
/// preserved.
proof fn lemma_fisher_yates_permutes(s: Seq<Coord>, i: int, state: u64)
    requires
        i < s.len(),
    ensures
        fisher_yates(s, i, state).0.len() == s.len(),
        fisher_yates(s, i, state).0.to_multiset() == s.to_multiset(),
    decreases i,
{
    if i >= 1 {
        let st = lcg_next(state);
        let j = (st as int) % (i + 1);
        lemma_swap_multiset(s, i, j);
        lemma_fisher_yates_permutes(s.update(i, s[j]).update(j, s[i]), i - 1, st);
    }
}

/// The shuffle only rearranges its input: same length, same elements with
/// the same multiplicities.
pub proof fn lemma_shuffle_permutes(s: Seq<Coord>)
    ensures
        spec_shuffle(s).len() == s.len(),
        spec_shuffle(s).to_multiset() == s.to_multiset(),
{
    lemma_fisher_yates_permutes(s, s.len() - 1, seed_fold(s));
}

/// The shuffle is deterministic: two results obtained from the same input
/// list are identical, always.
pub proof fn lemma_shuffle_deterministic(s: Seq<Coord>, r1: Seq<Coord>, r2: Seq<Coord>)
    requires
        r1 == spec_shuffle(s),
        r2 == spec_shuffle(s),
    ensures
        r1 == r2,
{
}

/// The two's-complement bit pattern of a coordinate component as a 64-bit
/// value.
fn wrap_u64(x: i32) -> (r: u64)
    ensures
        r == wrap_u64_of(x),
{
    if x >= 0 {
        x as u64
    } else {
        let y: u64 = (-(x as i64)) as u64;
        u64::MAX - y + 1
    }
}

/// Shuffle a coordinate list with a Fisher–Yates pass driven by a
/// linear-congruential generator seeded from the list's own contents.
/// The same list always yields the same permutation.
pub fn shuffle_array(coords: Vec<Coord>) -> (r: Vec<Coord>)
    ensures
        r@ == spec_shuffle(coords@),
        r@.len() == coords@.len(),
        r@.to_multiset() == coords@.to_multiset(),
{
    let ghost orig = coords@;
    let mut coords = coords;
    let n = coords.len();
    let mut seed: u64 = 0;
    let mut k: usize = 0;
    while k < n
        invariant
            coords@ == orig,
            n == orig.len(),
            0 <= k <= n,
            seed == seed_fold(orig.take(k as int)),
        decreases n - k,
    {
        let c = coords[k];
        proof {
            assert(orig.take(k + 1).drop_last() =~= orig.take(k as int));
            assert(orig.take(k + 1).last() == c);
        }
        let cq = wrap_u64(c.0);
        let cr = wrap_u64(c.1);
        seed = seed.wrapping_mul(31).wrapping_add(cq.wrapping_mul(17).wrapping_add(cr));
        k += 1;
    }
    proof {
        assert(orig.take(orig.len() as int) =~= orig);
        lemma_shuffle_permutes(orig);
    }
    if n <= 1 {
        return coords;
    }
    let mut state = seed;
    let mut i: usize = n - 1;
    while i >= 1
        invariant
            n == orig.len(),
            coords@.len() == n,
            2 <= n,
            0 <= i <= n - 1,
            fisher_yates(orig, n - 1, seed).0 == fisher_yates(coords@, i as int, state).0,
            coords@.to_multiset() == orig.to_multiset(),
        decreases i,
    {
        state = state.wrapping_mul(1103515245).wrapping_add(12345);
        let j = (state % (i as u64 + 1)) as usize;
        proof {
            assert(j as int == (state as int) % (i as int + 1));
            assert(0 <= j <= i);
            lemma_swap_multiset(coords@, i as int, j as int);
        }
        let a = coords[i];
        let b = coords[j];
        coords.set(i, b);
        coords.set(j, a);
        i -= 1;
    }
    coords
}

} // verus!
