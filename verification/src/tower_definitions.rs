use vstd::prelude::*;

verus! {

/// A kind of tower the draft can offer.
#[derive(Clone, Copy, PartialEq, Eq, Debug, Hash, Structural)]
pub enum TowerKind {
    Ballista,
    Cannon,
    Sprayer,
    Sniper,
}

/// Every tower kind, in registry order.
pub const ALL_TOWER_KINDS: [TowerKind; 4] = [
    TowerKind::Ballista,
    TowerKind::Cannon,
    TowerKind::Sprayer,
    TowerKind::Sniper,
];

impl TowerKind {
    pub open spec fn name_spec(self) -> Seq<char> {
        match self {
            TowerKind::Ballista => "Ballista"@,
            TowerKind::Cannon => "Cannon"@,
            TowerKind::Sprayer => "Sprayer"@,
            TowerKind::Sniper => "Sniper"@,
        }
    }

    pub open spec fn cost_spec(self) -> u32 {
        match self {
            TowerKind::Ballista => 10,
            TowerKind::Cannon => 16,
            TowerKind::Sprayer => 18,
            TowerKind::Sniper => 15,
        }
    }

    /// The tower's name.
    pub fn name(self) -> (r: &'static str)
        ensures
            r@ == self.name_spec(),
    {
        match self {
            TowerKind::Ballista => "Ballista",
            TowerKind::Cannon => "Cannon",
            TowerKind::Sprayer => "Sprayer",
            TowerKind::Sniper => "Sniper",
        }
    }

    /// The tower's base price.
    pub fn cost(self) -> (r: u32)
        ensures
            r == self.cost_spec(),
    {
        match self {
            TowerKind::Ballista => 10,
            TowerKind::Cannon => 16,
            TowerKind::Sprayer => 18,
            TowerKind::Sniper => 15,
        }
    }
}

} // verus!
