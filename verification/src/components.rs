use vstd::prelude::*;

verus! {

/// The kinds of enemies that walk the paths.
#[derive(Clone, Copy, PartialEq, Eq, Debug, Structural)]
pub enum EnemyKind {
    Grunt,
    Runner,
    Brute,
    Armored,
    Titan,
}

impl EnemyKind {
    /// Money paid out for a kill, before the player's loot bonus.
    pub open spec fn reward_spec(self) -> i32 {
        match self {
            EnemyKind::Runner => 1,
            EnemyKind::Grunt => 2,
            EnemyKind::Armored => 4,
            EnemyKind::Brute => 5,
            EnemyKind::Titan => 15,
        }
    }

    pub fn reward(self) -> (r: i32)
        ensures
            r == self.reward_spec(),
    {
        match self {
            EnemyKind::Runner => 1,
            EnemyKind::Grunt => 2,
            EnemyKind::Armored => 4,
            EnemyKind::Brute => 5,
            EnemyKind::Titan => 15,
        }
    }

    /// Only Titans drop a spell when they die.
    pub open spec fn drops_spell_spec(self) -> bool {
        self == EnemyKind::Titan
    }

    pub fn drops_spell(self) -> (r: bool)
        ensures
            r == self.drops_spell_spec(),
    {
        matches!(self, EnemyKind::Titan)
    }
}

/// Titans, and no other kind of enemy, drop a spell when killed.
pub proof fn lemma_only_titans_drop_spells(k: EnemyKind)
    ensures
        k.drops_spell_spec() <==> k == EnemyKind::Titan,
        !EnemyKind::Grunt.drops_spell_spec(),
        !EnemyKind::Runner.drops_spell_spec(),
        !EnemyKind::Brute.drops_spell_spec(),
        !EnemyKind::Armored.drops_spell_spec(),
        EnemyKind::Titan.drops_spell_spec(),
{
}

} // verus!
