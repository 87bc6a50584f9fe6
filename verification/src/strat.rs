//! Rules of the simple square-grid variant of the game: fixed towers,
//! enemies chosen by their place in the wave.

use vstd::prelude::*;

verus! {

/// The price of a tower in the simple variant.
pub const TOWER_COST: i32 = 40;

/// The money a run starts with.
pub const STARTING_MONEY: i32 = 120;

/// An enemy of the simple variant.
#[derive(Clone, Copy, PartialEq, Eq, Debug, Structural)]
pub enum EnemyKind {
    Grunt,
    Runner,
    Brute,
    Armored,
}

/// The kind of the `spawn_index`-th enemy (from 0) of wave `wave`: every
/// seventh is armored from wave 5, every fifth a brute from wave 3, every
/// third a runner from wave 2, the rest grunts.
pub open spec fn for_spawn_spec(wave: u32, spawn_index: u32) -> EnemyKind {
    let sequence = spawn_index + 1;
    if wave >= 5 && sequence % 7 == 0 {
        EnemyKind::Armored
    } else if wave >= 3 && sequence % 5 == 0 {
        EnemyKind::Brute
    } else if wave >= 2 && sequence % 3 == 0 {
        EnemyKind::Runner
    } else {
        EnemyKind::Grunt
    }
}

impl EnemyKind {
    pub fn for_spawn(wave: u32, spawn_index: u32) -> (r: EnemyKind)
        requires
            spawn_index < u32::MAX,
        ensures
            r == for_spawn_spec(wave, spawn_index),
    {
        let sequence = spawn_index + 1;
        if wave >= 5 && sequence % 7 == 0 {
            EnemyKind::Armored
        } else if wave >= 3 && sequence % 5 == 0 {
            EnemyKind::Brute
        } else if wave >= 2 && sequence % 3 == 0 {
            EnemyKind::Runner
        } else {
            EnemyKind::Grunt
        }
    }

    pub open spec fn reward_spec(self, wave: int) -> int {
        match self {
            EnemyKind::Grunt => 12 + wave,
            EnemyKind::Runner => 10 + wave,
            EnemyKind::Brute => 28 + wave * 2,
            EnemyKind::Armored => 22 + wave * 2,
        }
    }

    /// The money for killing this enemy in wave `wave`.
    pub fn reward(self, wave: u32) -> (r: i32)
        requires
            wave <= i32::MAX,
            self.reward_spec(wave as int) <= i32::MAX,
        ensures
            r == self.reward_spec(wave as int),
    {
        let w = wave as i32;
        match self {
            EnemyKind::Grunt => 12 + w,
            EnemyKind::Runner => 10 + w,
            EnemyKind::Brute => 28 + w * 2,
            EnemyKind::Armored => 22 + w * 2,
        }
    }
}

/// The number of enemies in wave `wave`.
pub fn enemies_in_wave(wave: u32) -> (r: u32)
    requires
        8 + wave * 3 <= u32::MAX,
    ensures
        r == 8 + wave * 3,
{
    8 + wave * 3
}

/// Buys a tower when the money covers its price.
pub fn try_buy_tower(money: &mut i32) -> (r: bool)
    ensures
        r == (*old(money) >= TOWER_COST),
        r ==> *final(money) == *old(money) - TOWER_COST,
        !r ==> *final(money) == *old(money),
{
    if *money >= TOWER_COST {
        *money = *money - TOWER_COST;
        true
    } else {
        false
    }
}

/// Passive income paid on a tick: nothing once the game is over or without
/// income.
pub fn passive_income(money: i32, income: i32, game_over: bool) -> (r: i32)
    requires
        !game_over && income > 0 ==> money + income <= i32::MAX,
    ensures
        r == if !game_over && income > 0 {
            money + income
        } else {
            money as int
        },
{
    if !game_over && income > 0 {
        money + income
    } else {
        money
    }
}

/// The index of the next enemy to send in a wave that has `remaining` left
/// to send.
pub fn spawn_index(wave: u32, remaining: u32) -> (r: u32)
    requires
        8 + wave * 3 <= u32::MAX,
        remaining <= 8 + wave * 3,
    ensures
        r == 8 + wave * 3 - remaining,
{
    enemies_in_wave(wave) - remaining
}

} // verus!
