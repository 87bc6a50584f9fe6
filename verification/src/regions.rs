use vstd::prelude::*;

use crate::hex::{lemma_tile_get_set, tile_get, tile_insert, tile_lookup, Axial};

verus! {

/// A named area of the map, as the map file lists it.
pub struct RegionDefinition {
    pub name: String,
    pub tiles: Vec<Axial>,
}

/// What a region definition holds, as plain values.
pub struct RegionView {
    pub name: Seq<char>,
    pub tiles: Seq<Axial>,
}

pub open spec fn region_view(r: RegionDefinition) -> RegionView {
    RegionView { name: r.name@, tiles: r.tiles@ }
}

pub open spec fn regions_view(v: Seq<RegionDefinition>) -> Seq<RegionView> {
    v.map_values(|r: RegionDefinition| region_view(r))
}

/// A named area of the map.
pub struct Region {
    pub name: String,
}

/// The regions, and for each tile the region it belongs to.
pub struct RegionMap {
    pub regions: Vec<Region>,
    /// `(tile, index into regions)`; each tile at most once.
    pub tile_to_region: Vec<(Axial, usize)>,
}

/// The region that owns `tile` among `defs[..n]`: the last one that lists
/// it (a later region takes a tile over from an earlier one).
pub open spec fn owner_upto(defs: Seq<RegionDefinition>, tile: Axial, n: int) -> Option<usize>
    decreases n,
{
    if n <= 0 {
        None
    } else if defs[n - 1].tiles@.contains(tile) {
        Some((n - 1) as usize)
    } else {
        owner_upto(defs, tile, n - 1)
    }
}

impl RegionMap {
    /// Every tile maps to the region that owns it in `defs`, and the names
    /// are those of `defs`.
    pub open spec fn built_from(self, defs: Seq<RegionDefinition>) -> bool {
        &&& self.regions@.len() == defs.len()
        &&& forall|i: int| 0 <= i < defs.len() ==> #[trigger] self.regions@[i].name@ == defs[i].name@
        &&& forall|t: Axial| #[trigger]
            tile_get(self.tile_to_region@, t) == owner_upto(defs, t, defs.len() as int)
    }

    /// The map of the given regions, in order.
    pub fn from_definitions(definitions: Vec<RegionDefinition>) -> (r: Self)
        ensures
            r.built_from(definitions@),
            forall|t: Axial|
                #[trigger] tile_get(r.tile_to_region@, t) matches Some(i) ==> i < r.regions@.len(),
    {
        let mut tile_to_region: Vec<(Axial, usize)> = Vec::new();
        let mut regions: Vec<Region> = Vec::new();
        let mut n: usize = 0;
        while n < definitions.len()
            invariant
                n <= definitions@.len(),
                regions@.len() == n,
                forall|i: int| 0 <= i < n ==> #[trigger] regions@[i].name@ == definitions@[i].name@,
                forall|t: Axial| #[trigger]
                    tile_get(tile_to_region@, t) == owner_upto(definitions@, t, n as int),
            decreases definitions@.len() - n,
        {
            let def = &definitions[n];
            regions.push(Region { name: def.name.clone() });
            let mut k: usize = 0;
            while k < def.tiles.len()
                invariant
                    n < definitions@.len(),
                    *def == definitions@[n as int],
                    k <= def.tiles@.len(),
                    forall|t: Axial| #[trigger]
                        tile_get(tile_to_region@, t) == if def.tiles@.take(k as int).contains(t) {
                            Some(n)
                        } else {
                            owner_upto(definitions@, t, n as int)
                        },
                decreases def.tiles@.len() - k,
            {
                let ghost before = tile_to_region@;
                let tile = def.tiles[k];
                tile_insert(&mut tile_to_region, tile, n);
                proof {
                    assert forall|t: Axial| #[trigger]
                        tile_get(tile_to_region@, t) == if def.tiles@.take(k + 1).contains(t) {
                            Some(n)
                        } else {
                            owner_upto(definitions@, t, n as int)
                        } by {
                        lemma_tile_get_set(before, tile, n, t);
                        assert(def.tiles@.take(k + 1) =~= def.tiles@.take(k as int).push(tile));
                        if def.tiles@.take(k as int).contains(t) {
                            let j = choose|j: int|
                                0 <= j < k && def.tiles@.take(k as int)[j] == t;
                            assert(def.tiles@.take(k + 1)[j] == t);
                        }
                        let next = def.tiles@.take(k + 1);
                        if next.contains(t) && t != tile {
                            let j = choose|j: int| 0 <= j < next.len() && next[j] == t;
                            assert(def.tiles@.take(k as int)[j] == t);
                        }
                        if t == tile {
                            assert(def.tiles@.take(k + 1)[k as int] == t);
                        }
                    }
                }
                k = k + 1;
            }
            proof {
                assert(def.tiles@.take(k as int) =~= def.tiles@);
                assert forall|t: Axial| #[trigger]
                    tile_get(tile_to_region@, t) == owner_upto(definitions@, t, n + 1) by {
                }
            }
            n = n + 1;
        }
        proof {
            assert forall|t: Axial|
                (#[trigger] tile_get(tile_to_region@, t) matches Some(i) ==> i < regions@.len()) by {
                lemma_owner_in_range(definitions@, t, definitions@.len() as int);
            }
        }
        RegionMap { regions, tile_to_region }
    }

    /// The region that owns `coord`, if any.
    pub fn region_at(&self, coord: Axial) -> (r: Option<&Region>)
        requires
            forall|t: Axial|
                #[trigger] tile_get(self.tile_to_region@, t) matches Some(i) ==> i
                    < self.regions@.len(),
        ensures
            match tile_get(self.tile_to_region@, coord) {
                Some(i) => r == Some(&self.regions@[i as int]),
                None => r is None,
            },
    {
        match tile_lookup(&self.tile_to_region, coord) {
            Some(i) => Some(&self.regions[i]),
            None => None,
        }
    }
}

/// The owner a tile is given always names one of the regions.
pub proof fn lemma_owner_in_range(defs: Seq<RegionDefinition>, tile: Axial, n: int)
    requires
        0 <= n <= defs.len(),
    ensures
        owner_upto(defs, tile, n) matches Some(i) ==> i < n,
    decreases n,
{
    if n > 0 {
        lemma_owner_in_range(defs, tile, n - 1);
    }
}

} // verus!
