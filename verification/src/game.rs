use vstd::prelude::*;

verus! {

/// HP after the regeneration at the end of a wave: a positive
/// regeneration heals, up to the maximum; otherwise HP stays.
pub fn regenerate(hp: i32, regen: i32, max_hp: i32) -> (r: i32)
    requires
        regen > 0 ==> hp + regen <= i32::MAX,
    ensures
        r == if regen > 0 {
            if hp + regen <= max_hp {
                hp + regen
            } else {
                max_hp as int
            }
        } else {
            hp as int
        },
{
    if regen > 0 {
        let healed = hp + regen;
        if healed <= max_hp {
            healed
        } else {
            max_hp
        }
    } else {
        hp
    }
}

/// What happens when a wave is over and the field is clear.
#[derive(Clone, Copy, PartialEq, Eq, Debug, Structural)]
pub enum RoundEnd {
    /// The final wave is done.
    Won,
    /// The next wave starts, with this number.
    NextWave(u32),
}

/// The end of wave `wave` of a run of `final_wave` waves.
pub fn end_of_round(wave: u32, final_wave: u32) -> (r: RoundEnd)
    ensures
        wave >= final_wave ==> r == RoundEnd::Won,
        wave < final_wave ==> r == RoundEnd::NextWave((wave + 1) as u32),
{
    if wave >= final_wave {
        RoundEnd::Won
    } else {
        RoundEnd::NextWave(wave + 1)
    }
}

/// An enemy reached the end of its path: the player loses one HP, and the
/// game is over when none is left.
pub fn enemy_leak(hp: i32) -> (r: (i32, bool))
    requires
        hp > i32::MIN,
    ensures
        r.0 == hp - 1,
        r.1 == (hp - 1 <= 0),
{
    let left = hp - 1;
    (left, left <= 0)
}

/// The money a kill brings: the enemy's reward plus the loot bonus, never
/// negative.
pub fn kill_loot(reward: i32, loot: i32) -> (r: i32)
    requires
        i32::MIN <= reward + loot <= i32::MAX,
    ensures
        r == if reward + loot >= 0 {
            reward + loot
        } else {
            0
        },
{
    let total = reward + loot;
    if total >= 0 {
        total
    } else {
        0
    }
}

/// The earth damage a golem gains for its kill number `kills + 1`.
pub open spec fn golem_gain_spec(kills: nat) -> int {
    (kills + 1) / 10 - kills / 10
}

/// A golem scores a kill: its new kill count, and the earth damage gained
/// (one for every tenth kill).
pub fn golem_kill(kills: u32) -> (r: (u32, u32))
    requires
        kills < u32::MAX,
    ensures
        r.0 == kills + 1,
        r.1 == golem_gain_spec(kills as nat),
        r.1 == if (kills + 1) % 10 == 0 {
            1int
        } else {
            0int
        },
{
    let prev = kills / 10;
    let now = kills + 1;
    (now, now / 10 - prev)
}

/// The earth damage a golem has gained over its first `n` kills.
pub open spec fn golem_total_gain(n: nat) -> int
    decreases n,
{
    if n == 0 {
        0
    } else {
        golem_total_gain((n - 1) as nat) + golem_gain_spec((n - 1) as nat)
    }
}

/// Over its first `n` kills a golem gains one earth damage per ten kills.
pub proof fn lemma_golem_total_gain(n: nat)
    ensures
        golem_total_gain(n) == n / 10,
    decreases n,
{
    if n > 0 {
        lemma_golem_total_gain((n - 1) as nat);
    }
}

/// The line shown under the HUD for the state of the run, if any.
pub open spec fn hud_status_spec(won: bool, over: bool, paused: bool, placing: bool) -> Option<
    Seq<char>,
> {
    if won {
        Some("Victory — press R to restart"@)
    } else if over {
        Some("Game over — press R to restart"@)
    } else if paused {
        Some("Paused — press Space to resume"@)
    } else if placing {
        Some("Left click on the map to place your tower"@)
    } else {
        None
    }
}

/// The status line of the HUD: victory, game over, pause or placing, in
/// that order of precedence.
pub fn hud_status(won: bool, over: bool, paused: bool, placing: bool) -> (r: Option<&'static str>)
    ensures
        match (r, hud_status_spec(won, over, paused, placing)) {
            (Some(s), Some(t)) => s@ == t,
            (None, None) => true,
            _ => false,
        },
{
    if won {
        Some("Victory — press R to restart")
    } else if over {
        Some("Game over — press R to restart")
    } else if paused {
        Some("Paused — press Space to resume")
    } else if placing {
        Some("Left click on the map to place your tower")
    } else {
        None
    }
}

} // verus!
