use vstd::prelude::*;

use crate::text::{chars_eq, str_to_chars};

verus! {

/// The kind of ground on a hex tile.
#[derive(Clone, Copy, Debug, PartialEq, Eq, Hash, Structural)]
pub enum TerrainKind {
    Plains,
    Mountain,
    WaterBody,
    Volcano,
    Forest,
    PineForest,
    AlpineForest,
    Desert,
}

/// Every terrain kind, in palette order.
pub const ALL_TERRAIN_KINDS: [TerrainKind; 8] = [
    TerrainKind::Plains,
    TerrainKind::Mountain,
    TerrainKind::WaterBody,
    TerrainKind::Volcano,
    TerrainKind::Forest,
    TerrainKind::PineForest,
    TerrainKind::AlpineForest,
    TerrainKind::Desert,
];

/// The kind of a tile that the map file does not mention.
pub const DEFAULT_TERRAIN_KIND: TerrainKind = TerrainKind::Plains;

impl TerrainKind {
    /// The name shown to the player.
    pub open spec fn name_spec(self) -> Seq<char> {
        match self {
            TerrainKind::Plains => "Plains"@,
            TerrainKind::Mountain => "Mountain"@,
            TerrainKind::WaterBody => "Water"@,
            TerrainKind::Volcano => "Volcano"@,
            TerrainKind::Forest => "Forest"@,
            TerrainKind::PineForest => "Pine Forest"@,
            TerrainKind::AlpineForest => "Alpine Forest"@,
            TerrainKind::Desert => "Desert"@,
        }
    }

    /// The word that stands for the kind in the map file.
    pub open spec fn key_spec(self) -> Seq<char> {
        match self {
            TerrainKind::Plains => "Plains"@,
            TerrainKind::Mountain => "Mountain"@,
            TerrainKind::WaterBody => "WaterBody"@,
            TerrainKind::Volcano => "Volcano"@,
            TerrainKind::Forest => "Forest"@,
            TerrainKind::PineForest => "PineForest"@,
            TerrainKind::AlpineForest => "AlpineForest"@,
            TerrainKind::Desert => "Desert"@,
        }
    }

    pub fn name(self) -> (r: &'static str)
        ensures
            r@ == self.name_spec(),
    {
        match self {
            TerrainKind::Plains => "Plains",
            TerrainKind::Mountain => "Mountain",
            TerrainKind::WaterBody => "Water",
            TerrainKind::Volcano => "Volcano",
            TerrainKind::Forest => "Forest",
            TerrainKind::PineForest => "Pine Forest",
            TerrainKind::AlpineForest => "Alpine Forest",
            TerrainKind::Desert => "Desert",
        }
    }

    pub fn key(self) -> (r: &'static str)
        ensures
            r@ == self.key_spec(),
    {
        match self {
            TerrainKind::Plains => "Plains",
            TerrainKind::Mountain => "Mountain",
            TerrainKind::WaterBody => "WaterBody",
            TerrainKind::Volcano => "Volcano",
            TerrainKind::Forest => "Forest",
            TerrainKind::PineForest => "PineForest",
            TerrainKind::AlpineForest => "AlpineForest",
            TerrainKind::Desert => "Desert",
        }
    }

    /// The kind whose key is exactly `key`, if any.
    pub open spec fn from_key_spec(key: Seq<char>) -> Option<TerrainKind> {
        if key == "Plains"@ {
            Some(TerrainKind::Plains)
        } else if key == "Mountain"@ {
            Some(TerrainKind::Mountain)
        } else if key == "WaterBody"@ {
            Some(TerrainKind::WaterBody)
        } else if key == "Volcano"@ {
            Some(TerrainKind::Volcano)
        } else if key == "Forest"@ {
            Some(TerrainKind::Forest)
        } else if key == "PineForest"@ {
            Some(TerrainKind::PineForest)
        } else if key == "AlpineForest"@ {
            Some(TerrainKind::AlpineForest)
        } else if key == "Desert"@ {
            Some(TerrainKind::Desert)
        } else {
            None
        }
    }

    /// The kind read from a map file key.
    pub fn from_key(key: &str) -> (r: Option<TerrainKind>)
        ensures
            r == Self::from_key_spec(key@),
    {
        let k = str_to_chars(key);
        Self::from_key_chars(k.as_slice())
    }

    /// `from_key` on characters.
    pub fn from_key_chars(k: &[char]) -> (r: Option<TerrainKind>)
        ensures
            r == Self::from_key_spec(k@),
    {
        if chars_eq(k, str_to_chars("Plains").as_slice()) {
            Some(TerrainKind::Plains)
        } else if chars_eq(k, str_to_chars("Mountain").as_slice()) {
            Some(TerrainKind::Mountain)
        } else if chars_eq(k, str_to_chars("WaterBody").as_slice()) {
            Some(TerrainKind::WaterBody)
        } else if chars_eq(k, str_to_chars("Volcano").as_slice()) {
            Some(TerrainKind::Volcano)
        } else if chars_eq(k, str_to_chars("Forest").as_slice()) {
            Some(TerrainKind::Forest)
        } else if chars_eq(k, str_to_chars("PineForest").as_slice()) {
            Some(TerrainKind::PineForest)
        } else if chars_eq(k, str_to_chars("AlpineForest").as_slice()) {
            Some(TerrainKind::AlpineForest)
        } else if chars_eq(k, str_to_chars("Desert").as_slice()) {
            Some(TerrainKind::Desert)
        } else {
            None
        }
    }
}

/// Reading a kind's key gives the kind back.
pub proof fn lemma_key_round_trip(kind: TerrainKind)
    ensures
        TerrainKind::from_key_spec(kind.key_spec()) == Some(kind),
        kind.key_spec().len() > 0,
{
    reveal_strlit("Plains");
    reveal_strlit("Mountain");
    reveal_strlit("WaterBody");
    reveal_strlit("Volcano");
    reveal_strlit("Forest");
    reveal_strlit("PineForest");
    reveal_strlit("AlpineForest");
    reveal_strlit("Desert");
    let ks = seq![
        "Plains"@,
        "Mountain"@,
        "WaterBody"@,
        "Volcano"@,
        "Forest"@,
        "PineForest"@,
        "AlpineForest"@,
        "Desert"@,
    ];
    assert("Forest"@[0] != "Plains"@[0]);
    assert("Desert"@[0] != "Plains"@[0]);
    assert("Desert"@[0] != "Forest"@[0]);
    assert forall|a: int, b: int| 0 <= a < b < 8 implies ks[a] != ks[b] by {
        if ks[a].len() == ks[b].len() {
            assert(ks[a][0] != ks[b][0]);
        }
    }
    match kind {
        TerrainKind::Plains => assert(ks[0] == kind.key_spec()),
        TerrainKind::Mountain => assert(ks[1] == kind.key_spec()),
        TerrainKind::WaterBody => assert(ks[2] == kind.key_spec()),
        TerrainKind::Volcano => assert(ks[3] == kind.key_spec()),
        TerrainKind::Forest => assert(ks[4] == kind.key_spec()),
        TerrainKind::PineForest => assert(ks[5] == kind.key_spec()),
        TerrainKind::AlpineForest => assert(ks[6] == kind.key_spec()),
        TerrainKind::Desert => assert(ks[7] == kind.key_spec()),
    }
}

} // verus!
