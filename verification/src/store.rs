//! The sparse grid state store: a map from hex coordinate to tile type,
//! plus a persistent constraint overlay that survives layout clears.

use vstd::prelude::*;
use crate::geometry::Coord;
use crate::coordset::CoordMap;
use crate::coordset::map_of;
use crate::coordset::keys_of;
use crate::coordset::lemma_map_of_dom;

verus! {

/// Tile classification.  The integer codes of the variants are part of the
/// external contract and must not be renumbered.
#[derive(Clone, Copy, Debug, PartialEq, Eq, Structural)]
pub enum TileType {
    Grass,
    Building,
    Road,
    Forest,
    Water,
}

/// The integer code of a tile type.
pub open spec fn spec_tile_code(t: TileType) -> int {
    match t {
        TileType::Grass => 0,
        TileType::Building => 1,
        TileType::Road => 2,
        TileType::Forest => 3,
        TileType::Water => 4,
    }
}

/// The tile type a code stands for, if any.
pub open spec fn spec_tile_from_code(code: int) -> Option<TileType> {
    if code == 0 {
        Some(TileType::Grass)
    } else if code == 1 {
        Some(TileType::Building)
    } else if code == 2 {
        Some(TileType::Road)
    } else if code == 3 {
        Some(TileType::Forest)
    } else if code == 4 {
        Some(TileType::Water)
    } else {
        None
    }
}

/// The integer code of a tile type.
pub fn tile_code(t: TileType) -> (c: i32)
    ensures
        c == spec_tile_code(t),
{
    match t {
        TileType::Grass => 0,
        TileType::Building => 1,
        TileType::Road => 2,
        TileType::Forest => 3,
        TileType::Water => 4,
    }
}

/// Decode a tile-type code; codes outside `0..=4` are rejected.
pub fn tile_from_code(code: i32) -> (r: Option<TileType>)
    ensures
        r == spec_tile_from_code(code as int),
        r.is_some() <==> 0 <= code <= 4,
        r matches Some(t) ==> spec_tile_code(t) == code,
{
    match code {
        0 => Some(TileType::Grass),
        1 => Some(TileType::Building),
        2 => Some(TileType::Road),
        3 => Some(TileType::Forest),
        4 => Some(TileType::Water),
        _ => None,
    }
}

/// Counts of each tile type in the grid, plus the total.
#[derive(Clone, Copy, Debug, PartialEq, Eq, Structural)]
pub struct GridStats {
    pub grass: usize,
    pub building: usize,
    pub road: usize,
    pub forest: usize,
    pub water: usize,
    pub total: usize,
}

/// How many entries of `s` carry tile type `t`.
pub open spec fn count_tiles(s: Seq<(Coord, TileType)>, t: TileType) -> int
    decreases s.len(),
{
    if s.len() == 0 {
        0
    } else {
        count_tiles(s.drop_last(), t) + if s.last().1 == t {
            1int
        } else {
            0int
        }
    }
}

/// Every entry carries one of the five tile types, so the per-type counts
/// sum to the number of entries.
pub proof fn lemma_count_tiles_total(s: Seq<(Coord, TileType)>)
    ensures
        count_tiles(s, TileType::Grass) + count_tiles(s, TileType::Building) + count_tiles(
            s,
            TileType::Road,
        ) + count_tiles(s, TileType::Forest) + count_tiles(s, TileType::Water) == s.len(),
        count_tiles(s, TileType::Grass) >= 0,
        count_tiles(s, TileType::Building) >= 0,
        count_tiles(s, TileType::Road) >= 0,
        count_tiles(s, TileType::Forest) >= 0,
        count_tiles(s, TileType::Water) >= 0,
    decreases s.len(),
{
    if s.len() > 0 {
        lemma_count_tiles_total(s.drop_last());
    }
}

/// The tile records selected from `s` by looking each coordinate up in `m`;
/// coordinates without a tile are omitted.
pub open spec fn batch_lookup(m: Map<Coord, TileType>, s: Seq<Coord>) -> Seq<(Coord, TileType)>
    decreases s.len(),
{
    if s.len() == 0 {
        Seq::empty()
    } else {
        let rest = batch_lookup(m, s.drop_last());
        if m.dom().contains(s.last()) {
            rest.push((s.last(), m[s.last()]))
        } else {
            rest
        }
    }
}

/// The grid state store.  `grid` is rebuilt on every generation request;
/// `constraints` persists until explicitly cleared.
pub struct GridState {
    grid: CoordMap<TileType>,
    constraints: CoordMap<TileType>,
}

impl GridState {
    /// The tiles of the current layout.
    pub closed spec fn grid(&self) -> Map<Coord, TileType> {
        self.grid@
    }

    /// The persistent constraint overlay.
    pub closed spec fn constraints(&self) -> Map<Coord, TileType> {
        self.constraints@
    }

    /// The constraint entries in enumeration order.
    pub closed spec fn constraint_entries(&self) -> Seq<(Coord, TileType)> {
        self.constraints.entries()
    }

    /// The grid entries in enumeration order.
    pub closed spec fn grid_entries(&self) -> Seq<(Coord, TileType)> {
        self.grid.entries()
    }

    /// Both backing maps hold each key once.
    pub closed spec fn wf(&self) -> bool {
        self.grid.wf() && self.constraints.wf()
    }

    /// A fresh store: no tiles, no constraints.
    pub fn new() -> (s: GridState)
        ensures
            s.wf(),
            s.grid() == Map::<Coord, TileType>::empty(),
            s.constraints() == Map::<Coord, TileType>::empty(),
    {
        GridState { grid: CoordMap::new(), constraints: CoordMap::new() }
    }

    /// Clear the current layout.  The constraint overlay persists.
    pub fn clear_layout(&mut self)
        requires
            old(self).wf(),
        ensures
            final(self).wf(),
            final(self).grid() == Map::<Coord, TileType>::empty(),
            final(self).constraints() == old(self).constraints(),
            final(self).constraint_entries() == old(self).constraint_entries(),
    {
        self.grid.clear();
    }

    /// Set a constraint at `(q, r)`, overwriting any earlier one.  Returns
    /// whether the tile-type code was valid; an invalid code changes
    /// nothing.
    pub fn set_pre_constraint(&mut self, q: i32, r: i32, tile_type: i32) -> (ok: bool)
        requires
            old(self).wf(),
        ensures
            final(self).wf(),
            ok <==> 0 <= tile_type <= 4,
            ok ==> final(self).constraints() == old(self).constraints().insert(
                (q, r),
                spec_tile_from_code(tile_type as int).unwrap(),
            ),
            !ok ==> final(self).constraints() == old(self).constraints(),
            final(self).grid() == old(self).grid(),
            final(self).grid_entries() == old(self).grid_entries(),
    {
        match tile_from_code(tile_type) {
            Some(tile) => {
                self.constraints.insert((q, r), tile);
                true
            },
            None => false,
        }
    }

    /// Drop every constraint.  The current layout persists.
    pub fn clear_pre_constraints(&mut self)
        requires
            old(self).wf(),
        ensures
            final(self).wf(),
            final(self).constraints() == Map::<Coord, TileType>::empty(),
            final(self).grid() == old(self).grid(),
            final(self).grid_entries() == old(self).grid_entries(),
    {
        self.constraints.clear();
    }

    /// The tile of the current layout at `(q, r)`, if any.
    pub fn get_tile(&self, q: i32, r: i32) -> (t: Option<TileType>)
        requires
            self.wf(),
        ensures
            t == if self.grid().dom().contains((q, r)) {
                Some(self.grid()[(q, r)])
            } else {
                None::<TileType>
            },
    {
        self.grid.get((q, r))
    }

    /// The tile-type code of the current layout at `(q, r)`, or `-1` when
    /// the cell is empty.
    pub fn get_tile_at(&self, q: i32, r: i32) -> (code: i32)
        requires
            self.wf(),
        ensures
            self.grid().dom().contains((q, r)) ==> code == spec_tile_code(self.grid()[(q, r)]),
            !self.grid().dom().contains((q, r)) ==> code == -1,
    {
        match self.get_tile(q, r) {
            Some(t) => tile_code(t),
            None => -1,
        }
    }

    /// Rebuild the layout from the constraints: the grid is cleared, then
    /// every constraint is copied in, so afterwards the grid equals the
    /// overlay exactly.
    pub fn generate_layout(&mut self)
        requires
            old(self).wf(),
        ensures
            final(self).wf(),
            final(self).grid() == old(self).constraints(),
            final(self).grid_entries() == old(self).constraint_entries(),
            final(self).constraints() == old(self).constraints(),
            final(self).constraint_entries() == old(self).constraint_entries(),
    {
        self.grid.clear();
        let n = self.constraints.len();
        let mut i: usize = 0;
        while i < n
            invariant
                old(self).wf(),
                self.constraints == old(self).constraints,
                n == self.constraints.entries().len(),
                0 <= i <= n,
                self.grid.wf(),
                self.grid.entries() == self.constraints.entries().take(i as int),
                self.grid@ == map_of(self.constraints.entries().take(i as int)),
            decreases n - i,
        {
            let e = self.constraints.entry_at(i);
            proof {
                let cs = self.constraints.entries();
                assert(keys_of(cs.take(i as int)) =~= keys_of(cs).take(i as int));
                assert(!keys_of(cs.take(i as int)).contains(e.0)) by {
                    if keys_of(cs.take(i as int)).contains(e.0) {
                        let j = choose|j: int|
                            0 <= j < keys_of(cs.take(i as int)).len() && #[trigger] keys_of(
                                cs.take(i as int),
                            )[j] == e.0;
                        assert(keys_of(cs.take(i as int))[j] == keys_of(cs).take(i as int)[j]);
                        assert(keys_of(cs)[j] == keys_of(cs)[i as int]);
                    }
                }
                lemma_map_of_dom(cs.take(i as int));
                self.grid.lemma_view_entries();
            }
            self.grid.insert(e.0, e.1);
            proof {
                let cs = self.constraints.entries();
                assert(cs.take(i + 1) =~= cs.take(i as int).push(e));
                self.grid.lemma_view_entries();
            }
            i += 1;
        }
        proof {
            let cs = self.constraints.entries();
            assert(cs.take(cs.len() as int) =~= cs);
            self.constraints.lemma_view_entries();
            old(self).constraints.lemma_view_entries();
        }
    }

    /// Count the tiles of the current layout by type.
    pub fn get_stats(&self) -> (stats: GridStats)
        requires
            self.wf(),
        ensures
            stats.grass == count_tiles(self.grid_entries(), TileType::Grass),
            stats.building == count_tiles(self.grid_entries(), TileType::Building),
            stats.road == count_tiles(self.grid_entries(), TileType::Road),
            stats.forest == count_tiles(self.grid_entries(), TileType::Forest),
            stats.water == count_tiles(self.grid_entries(), TileType::Water),
            stats.total == self.grid().len(),
            stats.total == stats.grass + stats.building + stats.road + stats.forest + stats.water,
    {
        let mut grass: usize = 0;
        let mut building: usize = 0;
        let mut road: usize = 0;
        let mut forest: usize = 0;
        let mut water: usize = 0;
        let n = self.grid.len();
        let mut i: usize = 0;
        while i < n
            invariant
                self.wf(),
                n == self.grid.entries().len(),
                0 <= i <= n,
                grass == count_tiles(self.grid.entries().take(i as int), TileType::Grass),
                building == count_tiles(self.grid.entries().take(i as int), TileType::Building),
                road == count_tiles(self.grid.entries().take(i as int), TileType::Road),
                forest == count_tiles(self.grid.entries().take(i as int), TileType::Forest),
                water == count_tiles(self.grid.entries().take(i as int), TileType::Water),
                grass + building + road + forest + water == i,
            decreases n - i,
        {
            let e = self.grid.entry_at(i);
            proof {
                let gs = self.grid.entries();
                assert(gs.take(i + 1).drop_last() =~= gs.take(i as int));
                assert(gs.take(i + 1).last() == e);
            }
            match e.1 {
                TileType::Grass => grass += 1,
                TileType::Building => building += 1,
                TileType::Road => road += 1,
                TileType::Forest => forest += 1,
                TileType::Water => water += 1,
            }
            i += 1;
        }
        proof {
            let gs = self.grid.entries();
            assert(gs.take(gs.len() as int) =~= gs);
        }
        let total = grass + building + road + forest + water;
        GridStats { grass, building, road, forest, water, total }
    }

    /// Look up each coordinate in the current layout; coordinates with no
    /// tile are omitted from the result.
    pub fn batch_get_tile_types(&self, coords: &Vec<Coord>) -> (records: Vec<(Coord, TileType)>)
        requires
            self.wf(),
        ensures
            records@ == batch_lookup(self.grid(), coords@),
    {
        let mut records: Vec<(Coord, TileType)> = Vec::new();
        let mut i: usize = 0;
        while i < coords.len()
            invariant
                self.wf(),
                0 <= i <= coords@.len(),
                records@ == batch_lookup(self.grid(), coords@.take(i as int)),
            decreases coords@.len() - i,
        {
            let c = coords[i];
            proof {
                assert(coords@.take(i + 1).drop_last() =~= coords@.take(i as int));
                assert(coords@.take(i + 1).last() == c);
            }
            match self.grid.get(c) {
                Some(t) => records.push((c, t)),
                None => (),
            }
            i += 1;
        }
        proof {
            assert(coords@.take(coords@.len() as int) =~= coords@);
        }
        records
    }
}

/// Rebuilding the layout is idempotent: two generation passes over
/// unchanged constraints produce identical grids, since each pass makes the
/// grid exactly the constraint overlay.
pub proof fn lemma_generate_layout_idempotent(
    grid1: Map<Coord, TileType>,
    grid2: Map<Coord, TileType>,
    constraints: Map<Coord, TileType>,
)
    requires
        grid1 == constraints,
        grid2 == constraints,
    ensures
        grid1 == grid2,
{
}

} // verus!
