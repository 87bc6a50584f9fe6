use vstd::prelude::*;

use crate::paths::strings_view;
use crate::terrain_file::kept_names;
use crate::text::{
    chars_eq_ignore_ascii_case, chars_to_string, eq_ignore_ascii_case, has_prefix, split_char,
    split_on, str_to_chars, strip_prefix_chars, trim, trim_chars, views,
};
use crate::tower_definitions::TowerKind;

verus! {

/// A uniformly drawn `usize` from `rand::random` (the thread-local
/// generator). Nothing is claimed of the value: any `usize` may come back.
#[verifier::external_body]
fn random_usize() -> (r: usize) {
    rand::random::<usize>()
}

/// A one-use spell the player can hold.
#[derive(Clone, Copy, PartialEq, Eq, Debug, Structural)]
pub enum SpellKind {
    Ignite,
    ElementalSurge,
    Slow,
}

impl SpellKind {
    pub open spec fn name_spec(self) -> Seq<char> {
        match self {
            SpellKind::Ignite => "Ignite"@,
            SpellKind::ElementalSurge => "Surge"@,
            SpellKind::Slow => "Slow"@,
        }
    }

    pub open spec fn description_spec(self) -> Seq<char> {
        match self {
            SpellKind::Ignite => "Sets all enemies on fire, scaling with fire damage"@,
            SpellKind::ElementalSurge => "Doubles elemental damage until wave end"@,
            SpellKind::Slow => "Slows all enemies until wave end"@,
        }
    }

    pub fn name(self) -> (r: &'static str)
        ensures
            r@ == self.name_spec(),
    {
        match self {
            SpellKind::Ignite => "Ignite",
            SpellKind::ElementalSurge => "Surge",
            SpellKind::Slow => "Slow",
        }
    }

    pub fn description(self) -> (r: &'static str)
        ensures
            r@ == self.description_spec(),
    {
        match self {
            SpellKind::Ignite => "Sets all enemies on fire, scaling with fire damage",
            SpellKind::ElementalSurge => "Doubles elemental damage until wave end",
            SpellKind::Slow => "Slows all enemies until wave end",
        }
    }
}

/// Index of the first empty slot of `slots[i..]` (`slots.len()` when all
/// are full).
pub open spec fn first_empty(slots: Seq<Option<SpellKind>>, i: int) -> int
    decreases slots.len() - i,
{
    if i < 0 || i >= slots.len() {
        slots.len() as int
    } else if slots[i] is None {
        i
    } else {
        first_empty(slots, i + 1)
    }
}

/// The three spell slots and the spells that can drop.
pub struct SpellShop {
    pub slots: [Option<SpellKind>; 3],
    pub known_kinds: Vec<SpellKind>,
}

impl SpellShop {
    /// The slots after storing `spell`: in the first empty slot, if any.
    pub open spec fn stored(slots: Seq<Option<SpellKind>>, spell: SpellKind) -> Seq<
        Option<SpellKind>,
    > {
        let i = first_empty(slots, 0);
        if i < slots.len() {
            slots.update(i, Some(spell))
        } else {
            slots
        }
    }

    pub fn new_empty() -> (r: Self)
        ensures
            r.slots@ == seq![None::<SpellKind>, None, None],
            r.known_kinds@ == Seq::<SpellKind>::empty(),
    {
        let r = SpellShop { slots: [None, None, None], known_kinds: Vec::new() };
        assert(r.slots@ =~= seq![None::<SpellKind>, None, None]);
        r
    }

    /// Empties the slots.
    pub fn reset(&mut self)
        ensures
            final(self).slots@ == seq![None::<SpellKind>, None, None],
            final(self).known_kinds@ == old(self).known_kinds@,
    {
        self.slots = [None, None, None];
        assert(self.slots@ =~= seq![None::<SpellKind>, None, None]);
    }

    /// Puts `spell` in the first empty slot; `false` (and no change) when
    /// every slot is full.
    pub fn store_spell(&mut self, spell: SpellKind) -> (r: bool)
        ensures
            r == (first_empty(old(self).slots@, 0) < 3),
            final(self).slots@ == Self::stored(old(self).slots@, spell),
            final(self).known_kinds@ == old(self).known_kinds@,
    {
        let mut i: usize = 0;
        while i < 3
            invariant
                i <= 3,
                self.slots@ == old(self).slots@,
                self.known_kinds@ == old(self).known_kinds@,
                first_empty(self.slots@, 0) == first_empty(self.slots@, i as int),
            decreases 3 - i,
        {
            if self.slots[i].is_none() {
                self.slots[i] = Some(spell);
                return true;
            }
            i = i + 1;
        }
        false
    }

    /// Stores a spell drawn at random from the known ones; `false` when none
    /// is known or every slot is full.
    pub fn store_random_spell(&mut self) -> (r: bool)
        ensures
            final(self).known_kinds@ == old(self).known_kinds@,
            old(self).known_kinds@.len() == 0 ==> !r && final(self).slots@ == old(self).slots@,
            old(self).known_kinds@.len() > 0 ==> exists|k: int|
                0 <= k < old(self).known_kinds@.len() && final(self).slots@ == Self::stored(
                    old(self).slots@,
                    #[trigger] old(self).known_kinds@[k],
                ),
            r == (old(self).known_kinds@.len() > 0 && first_empty(old(self).slots@, 0) < 3),
    {
        if self.known_kinds.len() == 0 {
            return false;
        }
        self.store_rolled_spell(random_usize())
    }

    /// Stores the known spell that the random number `roll` picks (the one
    /// at `roll % known_kinds.len()`); `false` when none is known or every
    /// slot is full.
    pub fn store_rolled_spell(&mut self, roll: usize) -> (r: bool)
        ensures
            final(self).known_kinds@ == old(self).known_kinds@,
            old(self).known_kinds@.len() == 0 ==> !r && final(self).slots@ == old(self).slots@,
            old(self).known_kinds@.len() > 0 ==> final(self).slots@ == Self::stored(
                old(self).slots@,
                old(self).known_kinds@[(roll as int) % (old(self).known_kinds@.len() as int)],
            ),
            r == (old(self).known_kinds@.len() > 0 && first_empty(old(self).slots@, 0) < 3),
    {
        if self.known_kinds.len() == 0 {
            return false;
        }
        let k = roll % self.known_kinds.len();
        let kind = self.known_kinds[k];
        self.store_spell(kind)
    }

    /// Takes the spell out of slot `index` (`None` for an empty slot or an
    /// index past the slots).
    pub fn take_spell(&mut self, index: usize) -> (r: Option<SpellKind>)
        ensures
            final(self).known_kinds@ == old(self).known_kinds@,
            index < 3 ==> r == old(self).slots@[index as int]
                && final(self).slots@ == old(self).slots@.update(index as int, None),
            index >= 3 ==> r is None && final(self).slots@ == old(self).slots@,
    {
        if index >= 3 {
            return None;
        }
        let r = self.slots[index];
        self.slots[index] = None;
        r
    }
}

/// A spell stored into a free slot is what taking that slot gives back.
pub proof fn lemma_store_then_take(slots: Seq<Option<SpellKind>>, spell: SpellKind)
    requires
        slots.len() == 3,
        first_empty(slots, 0) < 3,
    ensures
        SpellShop::stored(slots, spell)[first_empty(slots, 0)] == Some(spell),
        SpellShop::stored(slots, spell).update(first_empty(slots, 0), None) == slots,
{
    lemma_first_empty(slots, 0);
    let i = first_empty(slots, 0);
    assert(SpellShop::stored(slots, spell).update(i, None) =~= slots);
}

proof fn lemma_first_empty(slots: Seq<Option<SpellKind>>, i: int)
    requires
        0 <= i <= slots.len(),
    ensures
        i <= first_empty(slots, i) <= slots.len(),
        first_empty(slots, i) < slots.len() ==> slots[first_empty(slots, i)] is None,
    decreases slots.len() - i,
{
    if i < slots.len() && slots[i] is Some {
        lemma_first_empty(slots, i + 1);
    }
}

/// The index of the slot for a spell key (`Z`, `X`, `C`).
pub open spec fn spell_key_spec(index: usize) -> Seq<char> {
    if index == 0 {
        "Z"@
    } else if index == 1 {
        "X"@
    } else {
        "C"@
    }
}

/// The key that casts the spell in slot `index`.
pub fn spell_key(index: usize) -> (r: &'static str)
    ensures
        r@ == spell_key_spec(index),
{
    match index {
        0 => "Z",
        1 => "X",
        _ => "C",
    }
}

/// A player statistic that towers and items change.
#[derive(Clone, Copy, PartialEq, Eq, Debug, Structural)]
pub enum PlayerStatKind {
    MaxHp,
    Regeneration,
    AttackSpeed,
    Loot,
    CriticalChance,
    ExplosionSize,
    EarthDamage,
    FireDamage,
    AirDamage,
    WaterDamage,
    Piercing,
    PiercingDamage,
}

impl PlayerStatKind {
    pub open spec fn name_spec(self) -> Seq<char> {
        match self {
            PlayerStatKind::MaxHp => "Max HP"@,
            PlayerStatKind::Regeneration => "Regen"@,
            PlayerStatKind::AttackSpeed => "Atk Speed"@,
            PlayerStatKind::Loot => "loot"@,
            PlayerStatKind::CriticalChance => "Crit"@,
            PlayerStatKind::ExplosionSize => "Splash"@,
            PlayerStatKind::EarthDamage => "Earth"@,
            PlayerStatKind::FireDamage => "Fire"@,
            PlayerStatKind::AirDamage => "Air"@,
            PlayerStatKind::WaterDamage => "Water"@,
            PlayerStatKind::Piercing => "Piercing"@,
            PlayerStatKind::PiercingDamage => "Piercing Damage"@,
        }
    }

    /// The label of the statistic in effect texts.
    pub fn name(self) -> (r: &'static str)
        ensures
            r@ == self.name_spec(),
    {
        match self {
            PlayerStatKind::MaxHp => "Max HP",
            PlayerStatKind::Regeneration => "Regen",
            PlayerStatKind::AttackSpeed => "Atk Speed",
            PlayerStatKind::Loot => "loot",
            PlayerStatKind::CriticalChance => "Crit",
            PlayerStatKind::ExplosionSize => "Splash",
            PlayerStatKind::EarthDamage => "Earth",
            PlayerStatKind::FireDamage => "Fire",
            PlayerStatKind::AirDamage => "Air",
            PlayerStatKind::WaterDamage => "Water",
            PlayerStatKind::Piercing => "Piercing",
            PlayerStatKind::PiercingDamage => "Piercing Damage",
        }
    }

    /// Whether amounts of this statistic are shown as percentages.
    pub fn is_percent(self) -> (r: bool)
        ensures
            r == (self == PlayerStatKind::AttackSpeed || self == PlayerStatKind::CriticalChance
                || self == PlayerStatKind::PiercingDamage),
    {
        match self {
            PlayerStatKind::AttackSpeed | PlayerStatKind::CriticalChance
            | PlayerStatKind::PiercingDamage => true,
            _ => false,
        }
    }
}

/// `s` with the entries at `i` and `j` exchanged.
pub open spec fn swap_at(s: Seq<TowerKind>, i: int, j: int) -> Seq<TowerKind> {
    s.update(i, s[j]).update(j, s[i])
}

/// Index of the first `k` in `s[i..]` (`s.len()` when none).
pub open spec fn position_of(s: Seq<TowerKind>, k: TowerKind, i: int) -> int
    decreases s.len() - i,
{
    if i < 0 || i >= s.len() {
        s.len() as int
    } else if s[i] == k {
        i
    } else {
        position_of(s, k, i + 1)
    }
}

/// The kinds with the forced one (if it is among them) swapped to the
/// front, and the first position left to shuffle.
pub open spec fn forced_front(kinds: Seq<TowerKind>, forced: Option<TowerKind>) -> (Seq<TowerKind>, int) {
    match forced {
        Some(f) => {
            let idx = position_of(kinds, f, 0);
            if idx < kinds.len() {
                (swap_at(kinds, 0, idx), 1)
            } else {
                (kinds, 0)
            }
        },
        None => (kinds, 0),
    }
}

/// `k` steps of a partial Fisher-Yates shuffle from `start`: step `m` swaps
/// position `start + m` with `start + m + rolls[m] % (len - start - m)`.
pub open spec fn shuffle_steps(s: Seq<TowerKind>, start: int, rolls: Seq<usize>, k: int) -> Seq<
    TowerKind,
>
    decreases k,
{
    if k <= 0 {
        s
    } else {
        let prev = shuffle_steps(s, start, rolls, k - 1);
        let i = start + k - 1;
        swap_at(prev, i, i + (rolls[k - 1] as int) % (s.len() - i))
    }
}

/// The three offers drawn from `kinds` with the given random numbers: the
/// forced kind first when it is known, the other slots shuffled in.
pub open spec fn offers_spec(kinds: Seq<TowerKind>, forced: Option<TowerKind>, rolls: Seq<usize>) -> Seq<
    TowerKind,
> {
    let (s0, start) = forced_front(kinds, forced);
    shuffle_steps(s0, start, rolls, 3 - start).take(3)
}

proof fn lemma_position_of(s: Seq<TowerKind>, k: TowerKind, i: int)
    requires
        0 <= i <= s.len(),
    ensures
        i <= position_of(s, k, i) <= s.len(),
        position_of(s, k, i) < s.len() ==> s[position_of(s, k, i)] == k,
        position_of(s, k, i) == s.len() ==> forall|j: int| i <= j < s.len() ==> s[j] != k,
    decreases s.len() - i,
{
    if i < s.len() && s[i] != k {
        lemma_position_of(s, k, i + 1);
    }
}

/// A swap keeps the length, the members, and distinctness.
proof fn lemma_swap(s: Seq<TowerKind>, i: int, j: int)
    requires
        0 <= i < s.len(),
        0 <= j < s.len(),
    ensures
        swap_at(s, i, j).len() == s.len(),
        forall|x: TowerKind| #[trigger] swap_at(s, i, j).contains(x) <==> s.contains(x),
        s.no_duplicates() ==> swap_at(s, i, j).no_duplicates(),
{
    let t = swap_at(s, i, j);
    assert forall|x: TowerKind| #[trigger] t.contains(x) <==> s.contains(x) by {
        if t.contains(x) {
            let k = choose|k: int| 0 <= k < t.len() && t[k] == x;
            if k == j {
                assert(s[i] == x);
            } else if k == i {
                assert(s[j] == x);
            } else {
                assert(s[k] == x);
            }
        }
        if s.contains(x) {
            let k = choose|k: int| 0 <= k < s.len() && s[k] == x;
            if k == i {
                assert(t[j] == x);
            } else if k == j {
                assert(t[i] == x);
            } else {
                assert(t[k] == x);
            }
        }
    }
    if s.no_duplicates() {
        assert forall|a: int, b: int| 0 <= a < b < t.len() implies t[a] != t[b] by {
            let sa = if a == j { i } else if a == i { j } else { a };
            let sb = if b == j { i } else if b == i { j } else { b };
            assert(t[a] == s[sa]);
            assert(t[b] == s[sb]);
        }
    }
}

proof fn lemma_shuffle_steps(s: Seq<TowerKind>, start: int, rolls: Seq<usize>, k: int)
    requires
        0 <= start,
        0 <= k,
        start + k <= s.len(),
    ensures
        shuffle_steps(s, start, rolls, k).len() == s.len(),
        forall|x: TowerKind| #[trigger]
            shuffle_steps(s, start, rolls, k).contains(x) <==> s.contains(x),
        s.no_duplicates() ==> shuffle_steps(s, start, rolls, k).no_duplicates(),
        forall|m: int| 0 <= m < start ==> #[trigger] shuffle_steps(s, start, rolls, k)[m] == s[m],
    decreases k,
{
    if k > 0 {
        lemma_shuffle_steps(s, start, rolls, k - 1);
        let prev = shuffle_steps(s, start, rolls, k - 1);
        let i = start + k - 1;
        let j = i + (rolls[k - 1] as int) % (s.len() - i);
        lemma_swap(prev, i, j);
        assert forall|x: TowerKind| #[trigger]
            shuffle_steps(s, start, rolls, k).contains(x) <==> s.contains(x) by {
            assert(swap_at(prev, i, j).contains(x) <==> prev.contains(x));
        }
        assert forall|m: int| 0 <= m < start implies #[trigger] shuffle_steps(
            s,
            start,
            rolls,
            k,
        )[m] == s[m] by {
            assert(prev[m] == s[m]);
        }
    }
}

/// The offers are three kinds out of `kinds`, distinct when the kinds are,
/// with a forced kind that is known in front.
pub proof fn lemma_offers(kinds: Seq<TowerKind>, forced: Option<TowerKind>, rolls: Seq<usize>)
    requires
        kinds.len() >= 3,
    ensures
        offers_spec(kinds, forced, rolls).len() == 3,
        forall|i: int| 0 <= i < 3 ==> kinds.contains(#[trigger] offers_spec(kinds, forced, rolls)[i]),
        kinds.no_duplicates() ==> offers_spec(kinds, forced, rolls).no_duplicates(),
        forced matches Some(f) ==> (kinds.contains(f) ==> offers_spec(kinds, forced, rolls)[0] == f),
{
    let (s0, start) = forced_front(kinds, forced);
    match forced {
        Some(f) => {
            lemma_position_of(kinds, f, 0);
            let idx = position_of(kinds, f, 0);
            if idx < kinds.len() {
                lemma_swap(kinds, 0, idx);
            }
            if kinds.contains(f) {
                let w = choose|w: int| 0 <= w < kinds.len() && kinds[w] == f;
                assert(idx < kinds.len());
            }
        },
        None => {},
    }
    lemma_shuffle_steps(s0, start, rolls, 3 - start);
    let sh = shuffle_steps(s0, start, rolls, 3 - start);
    let r = sh.take(3);
    assert forall|i: int| 0 <= i < 3 implies kinds.contains(#[trigger] r[i]) by {
        assert(sh[i] == r[i]);
        assert(sh.contains(sh[i]));
        assert(s0.contains(sh[i]));
    }
    if kinds.no_duplicates() {
        assert forall|a: int, b: int| 0 <= a < b < r.len() implies r[a] != r[b] by {
            assert(r[a] == sh[a]);
            assert(r[b] == sh[b]);
        }
    }
    if start == 1 {
        assert(r[0] == sh[0]);
    }
}

/// The next forced kind, if any.
pub open spec fn queue_head(q: Seq<TowerKind>) -> Option<TowerKind> {
    if q.len() > 0 {
        Some(q[0])
    } else {
        None
    }
}

/// What the draft is doing.
#[derive(Clone, Copy, PartialEq, Eq, Debug, Structural)]
pub enum TowerDraftPhase {
    WaveRunning,
    Picking,
    Placing(TowerKind),
}

/// Towers to force into the first draft slot, one per round, oldest first.
pub struct ForcedTowerOffers {
    pub queue: Vec<TowerKind>,
    pub original: Vec<TowerKind>,
}

/// The tower draft between waves: three offers out of the known kinds.
pub struct TowerDraft {
    pub offers: Vec<TowerKind>,
    pub phase: TowerDraftPhase,
    pub known_kinds: Vec<TowerKind>,
}

/// The three offers for the given random numbers (see `offers_spec`).
pub fn arrange_offers(kinds: &[TowerKind], forced: Option<TowerKind>, rolls: &[usize]) -> (r: Vec<
    TowerKind,
>)
    requires
        kinds@.len() >= 3,
        rolls@.len() >= 3,
    ensures
        r@ == offers_spec(kinds@, forced, rolls@),
{
    let mut s: Vec<TowerKind> = Vec::new();
    let mut i: usize = 0;
    while i < kinds.len()
        invariant
            i <= kinds@.len(),
            s@ == kinds@.take(i as int),
        decreases kinds@.len() - i,
    {
        s.push(kinds[i]);
        assert(kinds@.take(i as int).push(kinds@[i as int]) =~= kinds@.take(i + 1));
        i = i + 1;
    }
    assert(kinds@.take(kinds@.len() as int) =~= kinds@);
    let n = s.len();
    let mut start: usize = 0;
    match forced {
        Some(f) => {
            let mut idx: usize = 0;
            while idx < n && s[idx] != f
                invariant
                    idx <= n,
                    n == s@.len(),
                    s@ == kinds@,
                    position_of(kinds@, f, 0) == position_of(kinds@, f, idx as int),
                decreases n - idx,
            {
                idx = idx + 1;
            }
            if idx < n {
                let a = s[0];
                let b = s[idx];
                s.set(0, b);
                s.set(idx, a);
                start = 1;
                assert(s@ =~= swap_at(kinds@, 0, idx as int));
            }
        },
        None => {},
    }
    let ghost s0 = s@;
    assert(forced_front(kinds@, forced) == (s0, start as int));
    let mut i: usize = start;
    while i < 3
        invariant
            start <= i <= 3,
            start <= 1,
            n == s@.len(),
            n >= 3,
            rolls@.len() >= 3,
            s0.len() == n,
            s@ == shuffle_steps(s0, start as int, rolls@, (i - start) as int),
        decreases 3 - i,
    {
        let j = i + rolls[i - start] % (n - i);
        let a = s[i];
        let b = s[j];
        s.set(i, b);
        s.set(j, a);
        proof {
            let prev = shuffle_steps(s0, start as int, rolls@, (i - start) as int);
            assert(s@ =~= swap_at(prev, i as int, j as int));
        }
        i = i + 1;
    }
    let mut r: Vec<TowerKind> = Vec::new();
    let mut k: usize = 0;
    while k < 3
        invariant
            k <= 3,
            n == s@.len(),
            n >= 3,
            r@ == s@.take(k as int),
        decreases 3 - k,
    {
        r.push(s[k]);
        assert(s@.take(k as int).push(s@[k as int]) =~= s@.take(k + 1));
        k = k + 1;
    }
    r
}

impl TowerDraft {
    pub fn new_empty() -> (r: Self)
        ensures
            r.offers@ == Seq::<TowerKind>::empty(),
            r.phase == TowerDraftPhase::Picking,
            r.known_kinds@ == Seq::<TowerKind>::empty(),
    {
        TowerDraft { offers: Vec::new(), phase: TowerDraftPhase::Picking, known_kinds: Vec::new() }
    }

    /// Draws three offers out of `kinds` at random, putting the next forced
    /// kind first when it is one of them; the forced kind is used up either
    /// way.
    pub fn generate_offers(kinds: &[TowerKind], forced: &mut ForcedTowerOffers) -> (r: Vec<TowerKind>)
        requires
            kinds@.len() >= 3,
        ensures
            final(forced).original@ == old(forced).original@,
            final(forced).queue@ == if old(forced).queue@.len() > 0 {
                old(forced).queue@.drop_first()
            } else {
                old(forced).queue@
            },
            exists|rolls: Seq<usize>|
                rolls.len() == 3 && r@ == #[trigger] offers_spec(
                    kinds@,
                    queue_head(old(forced).queue@),
                    rolls,
                ),
    {
        let head = if forced.queue.len() > 0 {
            Some(forced.queue.remove(0))
        } else {
            None
        };
        proof {
            if old(forced).queue@.len() > 0 {
                assert(forced.queue@ =~= old(forced).queue@.drop_first());
            }
        }
        let mut rolls: Vec<usize> = Vec::new();
        let mut k: usize = 0;
        while k < 3
            invariant
                k <= 3,
                rolls@.len() == k,
            decreases 3 - k,
        {
            rolls.push(random_usize());
            k = k + 1;
        }
        arrange_offers(kinds, head, rolls.as_slice())
    }

    /// The player clicks offer `index` while picking: that tower is to be
    /// placed. Outside picking nothing changes.
    pub fn pick_offer(&mut self, index: usize)
        requires
            index < old(self).offers@.len(),
        ensures
            final(self).offers@ == old(self).offers@,
            final(self).known_kinds@ == old(self).known_kinds@,
            final(self).phase == if old(self).phase == TowerDraftPhase::Picking {
                TowerDraftPhase::Placing(old(self).offers@[index as int])
            } else {
                old(self).phase
            },
    {
        if self.phase == TowerDraftPhase::Picking {
            self.phase = TowerDraftPhase::Placing(self.offers[index]);
        }
    }

    /// The tower being placed is down: the wave runs. Gives the tower placed,
    /// or `None` (and no change) when no tower was being placed.
    pub fn finish_placing(&mut self) -> (r: Option<TowerKind>)
        ensures
            final(self).offers@ == old(self).offers@,
            final(self).known_kinds@ == old(self).known_kinds@,
            match old(self).phase {
                TowerDraftPhase::Placing(k) => r == Some(k) && final(self).phase
                    == TowerDraftPhase::WaveRunning,
                _ => r is None && final(self).phase == old(self).phase,
            },
    {
        match self.phase {
            TowerDraftPhase::Placing(k) => {
                self.phase = TowerDraftPhase::WaveRunning;
                Some(k)
            },
            _ => None,
        }
    }

    /// Draws new offers (see `generate_offers`) and starts picking.
    pub fn activate(&mut self, forced: &mut ForcedTowerOffers)
        requires
            old(self).known_kinds@.len() >= 3,
        ensures
            final(self).known_kinds@ == old(self).known_kinds@,
            final(self).phase == TowerDraftPhase::Picking,
            final(forced).original@ == old(forced).original@,
            final(forced).queue@ == if old(forced).queue@.len() > 0 {
                old(forced).queue@.drop_first()
            } else {
                old(forced).queue@
            },
            exists|rolls: Seq<usize>|
                rolls.len() == 3 && final(self).offers@ == #[trigger] offers_spec(
                    old(self).known_kinds@,
                    queue_head(old(forced).queue@),
                    rolls,
                ),
    {
        self.offers = Self::generate_offers(self.known_kinds.as_slice(), forced);
        self.phase = TowerDraftPhase::Picking;
    }
}

/// The list given by the first `--towers=` argument, if any.
pub open spec fn towers_arg(args: Seq<Seq<char>>, i: int) -> Option<Seq<char>>
    decreases args.len() - i,
{
    if i < 0 || i >= args.len() {
        None
    } else if has_prefix(args[i], "--towers="@) {
        Some(args[i].skip("--towers="@.len() as int))
    } else {
        towers_arg(args, i + 1)
    }
}

/// The names of a `--towers=` list: split on commas, trimmed, empty ones
/// dropped.
pub open spec fn tower_names(list: Seq<char>) -> Seq<Seq<char>> {
    let pieces = split_on(list, ',');
    kept_names(pieces, pieces.len() as int)
}

/// The first of `known[i..]` whose name matches `name` ignoring ASCII case.
pub open spec fn resolve_tower(known: Seq<TowerKind>, name: Seq<char>, i: int) -> Option<TowerKind>
    decreases known.len() - i,
{
    if i < 0 || i >= known.len() {
        None
    } else if eq_ignore_ascii_case(known[i].name_spec(), name) {
        Some(known[i])
    } else {
        resolve_tower(known, name, i + 1)
    }
}

/// Every name of the first `--towers=` list names a known tower.
pub open spec fn towers_arg_resolves(args: Seq<Seq<char>>, known: Seq<TowerKind>) -> bool {
    match towers_arg(args, 0) {
        Some(list) => forall|k: int|
            0 <= k < tower_names(list).len() ==> #[trigger] resolve_tower(
                known,
                tower_names(list)[k],
                0,
            ) is Some,
        None => true,
    }
}

/// The queue the arguments ask for.
pub open spec fn forced_queue(args: Seq<Seq<char>>, known: Seq<TowerKind>) -> Seq<TowerKind> {
    match towers_arg(args, 0) {
        Some(list) => tower_names(list).map_values(|n: Seq<char>| resolve_tower(known, n, 0)->0),
        None => Seq::empty(),
    }
}

fn resolve_tower_exec(known: &[TowerKind], name: &[char]) -> (r: Option<TowerKind>)
    ensures
        r == resolve_tower(known@, name@, 0),
{
    let mut i: usize = 0;
    while i < known.len()
        invariant
            i <= known@.len(),
            resolve_tower(known@, name@, 0) == resolve_tower(known@, name@, i as int),
        decreases known@.len() - i,
    {
        let n = str_to_chars(known[i].name());
        if chars_eq_ignore_ascii_case(n.as_slice(), name) {
            return Some(known[i]);
        }
        i = i + 1;
    }
    None
}

fn towers_arg_exec(args: &Vec<String>) -> (r: Option<Vec<char>>)
    ensures
        match (r, towers_arg(strings_view(args@), 0)) {
            (Some(v), Some(w)) => v@ == w,
            (None, None) => true,
            _ => false,
        },
{
    let prefix = str_to_chars("--towers=");
    let ghost av = strings_view(args@);
    let mut i: usize = 0;
    while i < args.len()
        invariant
            i <= args@.len(),
            av == strings_view(args@),
            prefix@ == "--towers="@,
            towers_arg(av, 0) == towers_arg(av, i as int),
        decreases args@.len() - i,
    {
        let a = str_to_chars(args[i].as_str());
        assert(av[i as int] == args@[i as int]@);
        match strip_prefix_chars(a.as_slice(), prefix.as_slice()) {
            Some(rest) => {
                return Some(rest);
            },
            None => {},
        }
        i = i + 1;
    }
    None
}

fn tower_names_exec(list: &[char]) -> (r: Vec<Vec<char>>)
    ensures
        views(r@) == tower_names(list@),
{
    let pieces = split_char(list, ',');
    let ghost pv = views(pieces@);
    let mut r: Vec<Vec<char>> = Vec::new();
    let mut i: usize = 0;
    while i < pieces.len()
        invariant
            i <= pieces@.len(),
            pv == views(pieces@),
            pv == split_on(list@, ','),
            views(r@) == kept_names(pv, i as int),
        decreases pieces@.len() - i,
    {
        let n = trim_chars(pieces[i].as_slice());
        assert(pv[i as int] == pieces@[i as int]@);
        if n.len() > 0 {
            let ghost before = r@;
            r.push(n);
            assert(views(r@) =~= views(before).push(trim(pv[i as int])));
        } else {
            assert(kept_names(pv, i + 1) =~= kept_names(pv, i as int));
        }
        i = i + 1;
    }
    r
}

/// The first name of the `--towers=` list that names no known tower, if any
/// (the check to make before `ForcedTowerOffers::from_args`).
pub fn unknown_tower_name(args: &Vec<String>, known_kinds: &[TowerKind]) -> (r: Option<String>)
    ensures
        r is None <==> towers_arg_resolves(strings_view(args@), known_kinds@),
        r matches Some(name) ==> resolve_tower(known_kinds@, name@, 0) is None,
{
    match towers_arg_exec(args) {
        None => None,
        Some(list) => {
            let names = tower_names_exec(list.as_slice());
            let ghost nv = views(names@);
            let mut k: usize = 0;
            while k < names.len()
                invariant
                    k <= names@.len(),
                    nv == views(names@),
                    nv == tower_names(list@),
                    towers_arg(strings_view(args@), 0) == Some(list@),
                    forall|q: int| 0 <= q < k ==> #[trigger] resolve_tower(known_kinds@, nv[q], 0) is Some,
                decreases names@.len() - k,
            {
                assert(nv[k as int] == names@[k as int]@);
                if resolve_tower_exec(known_kinds, names[k].as_slice()).is_none() {
                    proof {
                        assert(towers_arg(strings_view(args@), 0) == Some(list@));
                        assert(resolve_tower(known_kinds@, tower_names(list@)[k as int], 0) is None);
                    }
                    return Some(chars_to_string(names[k].as_slice()));
                }
                k = k + 1;
            }
            None
        },
    }
}

impl ForcedTowerOffers {
    /// The queue named by the first `--towers=a,b,c` argument (names matched
    /// ignoring ASCII case), or an empty one.
    pub fn from_args(args: Vec<String>, known_kinds: &[TowerKind]) -> (r: Self)
        requires
            towers_arg_resolves(strings_view(args@), known_kinds@),
        ensures
            r.queue@ == forced_queue(strings_view(args@), known_kinds@),
            r.original@ == r.queue@,
    {
        match towers_arg_exec(&args) {
            None => ForcedTowerOffers { queue: Vec::new(), original: Vec::new() },
            Some(list) => {
                let names = tower_names_exec(list.as_slice());
                let ghost nv = views(names@);
                let mut queue: Vec<TowerKind> = Vec::new();
                let mut k: usize = 0;
                while k < names.len()
                    invariant
                        k <= names@.len(),
                        nv == views(names@),
                        nv == tower_names(list@),
                        towers_arg(strings_view(args@), 0) == Some(list@),
                        towers_arg_resolves(strings_view(args@), known_kinds@),
                        queue@ == nv.take(k as int).map_values(
                            |n: Seq<char>| resolve_tower(known_kinds@, n, 0)->0,
                        ),
                    decreases names@.len() - k,
                {
                    assert(nv[k as int] == names@[k as int]@);
                    assert(resolve_tower(known_kinds@, nv[k as int], 0) is Some);
                    let kind = match resolve_tower_exec(known_kinds, names[k].as_slice()) {
                        Some(kind) => kind,
                        None => {
                            return ForcedTowerOffers { queue: Vec::new(), original: Vec::new() };
                        },
                    };
                    queue.push(kind);
                    assert(queue@ =~= nv.take(k + 1).map_values(
                        |n: Seq<char>| resolve_tower(known_kinds@, n, 0)->0,
                    ));
                    k = k + 1;
                }
                assert(nv.take(nv.len() as int) =~= nv);
                let original = queue.clone();
                assert(original@ == queue@);
                ForcedTowerOffers { queue, original }
            },
        }
    }

    /// Puts back the whole queue the arguments gave.
    pub fn reset(&mut self)
        ensures
            final(self).queue@ == old(self).original@,
            final(self).original@ == old(self).original@,
    {
        self.queue = self.original.clone();
    }
}

/// An item of the shop's registry, by its index there.
#[derive(Clone, Copy, PartialEq, Eq, Debug, Hash, Structural)]
pub struct ItemKind(pub usize);

/// An item on sale, at its price for the current wave.
#[derive(Clone, Copy, PartialEq, Eq, Debug, Structural)]
pub struct ShopOffer {
    pub item: ItemKind,
    pub cost: i32,
}

/// The shop: three offer slots, the reroll price and the items that can be
/// offered.
pub struct Shop {
    pub offers: [Option<ShopOffer>; 3],
    pub reroll_cost: i32,
    pub known_kinds: Vec<ItemKind>,
}

/// The offers drawn with the given random numbers: slot `i` holds the kind
/// at `rolls[i] % kinds.len()` at its price, or every slot is empty when no
/// kind is known.
pub open spec fn shop_offers_spec(kinds: Seq<ItemKind>, prices: Seq<i32>, rolls: Seq<usize>) -> Seq<
    Option<ShopOffer>,
> {
    if kinds.len() == 0 {
        seq![None, None, None]
    } else {
        Seq::new(
            3,
            |i: int|
                Some(
                    ShopOffer {
                        item: kinds[(rolls[i] as int) % (kinds.len() as int)],
                        cost: prices[(rolls[i] as int) % (kinds.len() as int)],
                    },
                ),
        )
    }
}

/// Each of the three slots is drawn with its own random number: when a
/// kind is known, slot `i` offers the kind that `rolls[i]` picks
/// (`rolls[i] % kinds.len()`) at that kind's price, whatever the other
/// numbers are; when none is known every slot is empty.
pub proof fn lemma_shop_slots(
    kinds: Seq<ItemKind>,
    prices: Seq<i32>,
    rolls: Seq<usize>,
    other: Seq<usize>,
    i: int,
)
    requires
        0 <= i < 3,
        rolls.len() >= 3,
        other.len() >= 3,
        other[i] == rolls[i],
    ensures
        shop_offers_spec(kinds, prices, rolls).len() == 3,
        kinds.len() == 0 ==> shop_offers_spec(kinds, prices, rolls)[i] is None,
        kinds.len() > 0 ==> ({
            let k = (rolls[i] as int) % (kinds.len() as int);
            &&& 0 <= k < kinds.len()
            &&& shop_offers_spec(kinds, prices, rolls)[i] == Some(
                ShopOffer { item: kinds[k], cost: prices[k] },
            )
        }),
        shop_offers_spec(kinds, prices, other)[i] == shop_offers_spec(kinds, prices, rolls)[i],
{
}

/// All offer prices are non-negative.
pub open spec fn offers_priced(offers: Seq<Option<ShopOffer>>) -> bool {
    forall|i: int| 0 <= i < offers.len() ==> (#[trigger] offers[i] matches Some(o) ==> o.cost >= 0)
}

/// The three offers for the given random numbers (see `shop_offers_spec`).
pub fn shop_offers_from_rolls(kinds: &[ItemKind], prices: &[i32], rolls: &[usize]) -> (r: [Option<
    ShopOffer,
>; 3])
    requires
        prices@.len() == kinds@.len(),
        rolls@.len() >= 3,
    ensures
        r@ == shop_offers_spec(kinds@, prices@, rolls@),
{
    let mut offers: [Option<ShopOffer>; 3] = [None, None, None];
    if kinds.len() == 0 {
        assert(offers@ =~= seq![None::<ShopOffer>, None, None]);
        return offers;
    }
    let mut i: usize = 0;
    while i < 3
        invariant
            i <= 3,
            kinds@.len() > 0,
            prices@.len() == kinds@.len(),
            rolls@.len() >= 3,
            forall|k: int|
                0 <= k < i ==> offers@[k] == #[trigger] shop_offers_spec(kinds@, prices@, rolls@)[k],
        decreases 3 - i,
    {
        let k = rolls[i] % kinds.len();
        offers[i] = Some(ShopOffer { item: kinds[k], cost: prices[k] });
        i = i + 1;
    }
    assert(offers@ =~= shop_offers_spec(kinds@, prices@, rolls@));
    offers
}

/// The items other than `item`, in their order.
pub fn items_without(items: &Vec<ItemKind>, item: ItemKind) -> (r: Vec<ItemKind>)
    ensures
        r@ == items@.filter(|k: ItemKind| k != item),
{
    let ghost pred: spec_fn(ItemKind) -> bool = |k: ItemKind| k != item;
    let mut kept: Vec<ItemKind> = Vec::new();
    let mut i: usize = 0;
    while i < items.len()
        invariant
            i <= items@.len(),
            pred == (|k: ItemKind| k != item),
            kept@ == items@.take(i as int).filter(pred),
        decreases items@.len() - i,
    {
        let k = items[i];
        proof {
            let next = items@.take(i + 1);
            assert(next.drop_last() =~= items@.take(i as int));
            assert(next.last() == k);
            reveal(Seq::filter);
            assert(next.filter(pred) == if pred(k) {
                items@.take(i as int).filter(pred).push(k)
            } else {
                items@.take(i as int).filter(pred)
            });
        }
        if k != item {
            kept.push(k);
        }
        i = i + 1;
    }
    assert(items@.take(items@.len() as int) =~= items@);
    kept
}

impl Shop {
    pub fn new_empty() -> (r: Self)
        ensures
            r.offers@ == seq![None::<ShopOffer>, None, None],
            r.reroll_cost == 0,
            r.known_kinds@ == Seq::<ItemKind>::empty(),
    {
        let r = Shop { offers: [None, None, None], reroll_cost: 0, known_kinds: Vec::new() };
        assert(r.offers@ =~= seq![None::<ShopOffer>, None, None]);
        r
    }

    /// Three offers drawn at random out of `kinds`, each at the price given
    /// for it in `prices`.
    pub fn generate_offers(kinds: &[ItemKind], prices: &[i32]) -> (r: [Option<ShopOffer>; 3])
        requires
            prices@.len() == kinds@.len(),
        ensures
            exists|rolls: Seq<usize>|
                rolls.len() == 3 && r@ == #[trigger] shop_offers_spec(kinds@, prices@, rolls),
    {
        let rolls = [random_usize(), random_usize(), random_usize()];
        shop_offers_from_rolls(kinds, prices, &rolls)
    }

    /// New offers out of the known kinds (`prices[i]` is the price of
    /// `known_kinds[i]` this wave) and the reroll price.
    pub fn activate(&mut self, prices: &[i32], reroll_cost: i32)
        requires
            prices@.len() == old(self).known_kinds@.len(),
        ensures
            final(self).known_kinds@ == old(self).known_kinds@,
            final(self).reroll_cost == reroll_cost,
            exists|rolls: Seq<usize>|
                rolls.len() == 3 && final(self).offers@ == #[trigger] shop_offers_spec(
                    old(self).known_kinds@,
                    prices@,
                    rolls,
                ),
    {
        self.offers = Self::generate_offers(self.known_kinds.as_slice(), prices);
        self.reroll_cost = reroll_cost;
    }

    /// Takes the offer out of slot `selected`, leaving it empty.
    pub fn take_offer(&mut self, selected: usize) -> (r: Option<ShopOffer>)
        requires
            selected < 3,
        ensures
            r == old(self).offers@[selected as int],
            final(self).offers@ == old(self).offers@.update(selected as int, None),
            final(self).reroll_cost == old(self).reroll_cost,
            final(self).known_kinds@ == old(self).known_kinds@,
    {
        let offer = self.offers[selected];
        self.offers[selected] = None;
        offer
    }

    /// Buys the offer in slot `selected` when there is one and the money
    /// covers it: the price is paid and the slot emptied. Otherwise nothing
    /// changes.
    pub fn buy(&mut self, money: &mut i32, selected: usize) -> (r: Option<ShopOffer>)
        requires
            selected < 3,
            offers_priced(old(self).offers@),
        ensures
            final(self).known_kinds@ == old(self).known_kinds@,
            final(self).reroll_cost == old(self).reroll_cost,
            match old(self).offers@[selected as int] {
                Some(o) => if *old(money) >= o.cost {
                    &&& r == Some(o)
                    &&& *final(money) == *old(money) - o.cost
                    &&& final(self).offers@ == old(self).offers@.update(selected as int, None)
                } else {
                    &&& r is None
                    &&& *final(money) == *old(money)
                    &&& final(self).offers@ == old(self).offers@
                },
                None => r is None && *final(money) == *old(money)
                    && final(self).offers@ == old(self).offers@,
            },
    {
        match self.offers[selected] {
            None => None,
            Some(offer) => {
                assert(self.offers@[selected as int] matches Some(o) ==> o.cost >= 0);
                if *money < offer.cost {
                    return None;
                }
                *money = *money - offer.cost;
                self.take_offer(selected);
                Some(offer)
            },
        }
    }

    /// Adds an item to the kinds the shop can offer.
    pub fn add_to_pool(&mut self, item: ItemKind)
        ensures
            final(self).known_kinds@ == old(self).known_kinds@.push(item),
            final(self).offers@ == old(self).offers@,
            final(self).reroll_cost == old(self).reroll_cost,
    {
        self.known_kinds.push(item);
    }

    /// Drops every copy of an item from the kinds the shop can offer,
    /// keeping the others in their order.
    pub fn remove_from_pool(&mut self, item: ItemKind)
        ensures
            final(self).known_kinds@ == old(self).known_kinds@.filter(|k: ItemKind| k != item),
            final(self).offers@ == old(self).offers@,
            final(self).reroll_cost == old(self).reroll_cost,
    {
        self.known_kinds = items_without(&self.known_kinds, item);
    }

    /// Pays for a reroll when the money covers it; the caller then draws the
    /// new offers. Otherwise nothing changes.
    pub fn pay_reroll(&self, money: &mut i32) -> (r: bool)
        requires
            self.reroll_cost >= 0,
        ensures
            r == (*old(money) >= self.reroll_cost),
            r ==> *final(money) == *old(money) - self.reroll_cost,
            !r ==> *final(money) == *old(money),
    {
        if *money >= self.reroll_cost {
            *money = *money - self.reroll_cost;
            true
        } else {
            false
        }
    }
}

/// How many enemies of each group of the current wave have been sent.
pub struct SpawnTimer {
    pub spawned_by_group: Vec<u32>,
}

impl SpawnTimer {
    /// The count recorded for group `index` (0 when none is).
    pub open spec fn spawned_spec(self, index: int) -> u32 {
        if 0 <= index < self.spawned_by_group@.len() {
            self.spawned_by_group@[index]
        } else {
            0
        }
    }

    pub fn new() -> (r: Self)
        ensures
            r.spawned_by_group@ == Seq::<u32>::empty(),
    {
        SpawnTimer { spawned_by_group: Vec::new() }
    }

    /// Forgets every count.
    pub fn reset(&mut self)
        ensures
            final(self).spawned_by_group@ == Seq::<u32>::empty(),
    {
        self.spawned_by_group.clear();
    }

    pub fn spawned_in_group(&self, index: usize) -> (r: u32)
        ensures
            r == self.spawned_spec(index as int),
    {
        if index < self.spawned_by_group.len() {
            self.spawned_by_group[index]
        } else {
            0
        }
    }

    /// Records `count` for group `index`, growing the list with zeros.
    pub fn set_spawned_in_group(&mut self, index: usize, count: u32)
        requires
            index < usize::MAX,
        ensures
            final(self).spawned_by_group@.len() == if index < old(self).spawned_by_group@.len() {
                old(self).spawned_by_group@.len()
            } else {
                (index + 1) as nat
            },
            forall|i: int|
                0 <= i < final(self).spawned_by_group@.len()
                    ==> #[trigger] final(self).spawned_by_group@[i] == if i == index {
                    count
                } else {
                    old(self).spawned_spec(i)
                },
    {
        if self.spawned_by_group.len() <= index {
            self.spawned_by_group.resize(index + 1, 0);
        }
        self.spawned_by_group.set(index, count);
    }
}

/// What a read gives back after a write: the count written for that group,
/// and the old count for every other group.
pub proof fn lemma_spawned_read_after_write(
    before: SpawnTimer,
    after: SpawnTimer,
    index: int,
    count: u32,
    other: int,
)
    requires
        0 <= index,
        after.spawned_by_group@.len() >= index + 1,
        after.spawned_by_group@.len() == if index < before.spawned_by_group@.len() {
            before.spawned_by_group@.len()
        } else {
            (index + 1) as nat
        },
        forall|i: int|
            0 <= i < after.spawned_by_group@.len() ==> #[trigger] after.spawned_by_group@[i] == if i
                == index {
                count
            } else {
                before.spawned_spec(i)
            },
    ensures
        after.spawned_spec(index) == count,
        other != index ==> after.spawned_spec(other) == before.spawned_spec(other),
{
    if other != index && 0 <= other < after.spawned_by_group@.len() {
        assert(after.spawned_by_group@[other] == before.spawned_spec(other));
    }
}

} // verus!
