use vstd::prelude::*;

use crate::resources::{items_without, ItemKind, Shop};
use crate::tower_definitions::TowerKind;

verus! {

/// When an item joins the shop's pool.
#[derive(Clone, Copy, PartialEq, Eq, Debug, Structural)]
pub enum UnlockCondition {
    /// At the start of every run.
    Always,
    /// Once a tower of this kind has been built.
    Tower(TowerKind),
    /// Once this item has been bought.
    Item(ItemKind),
}

/// The items unlocked during the current run.
pub struct UnlockedItems {
    pub items: Vec<ItemKind>,
}

impl UnlockCondition {
    /// Whether the towers built and the items bought since the last check
    /// meet a mid-run condition (`Always` is met only when a run starts).
    pub fn met_by(&self, new_towers: &[TowerKind], purchased: &[ItemKind]) -> (r: bool)
        ensures
            r == match *self {
                UnlockCondition::Always => false,
                UnlockCondition::Tower(t) => new_towers@.contains(t),
                UnlockCondition::Item(i) => purchased@.contains(i),
            },
    {
        match *self {
            UnlockCondition::Always => false,
            UnlockCondition::Tower(t) => {
                let mut k: usize = 0;
                while k < new_towers.len()
                    invariant
                        k <= new_towers@.len(),
                        *self == UnlockCondition::Tower(t),
                        forall|q: int| 0 <= q < k ==> new_towers@[q] != t,
                    decreases new_towers@.len() - k,
                {
                    if new_towers[k] == t {
                        return true;
                    }
                    k = k + 1;
                }
                false
            },
            UnlockCondition::Item(i) => {
                let mut k: usize = 0;
                while k < purchased.len()
                    invariant
                        k <= purchased@.len(),
                        *self == UnlockCondition::Item(i),
                        forall|q: int| 0 <= q < k ==> purchased@[q] != i,
                    decreases purchased@.len() - k,
                {
                    if purchased[k] == i {
                        return true;
                    }
                    k = k + 1;
                }
                false
            },
        }
    }
}

impl UnlockedItems {
    pub fn new() -> (r: Self)
        ensures
            r.items@ == Seq::<ItemKind>::empty(),
    {
        UnlockedItems { items: Vec::new() }
    }

    pub fn contains(&self, item: ItemKind) -> (r: bool)
        ensures
            r == self.items@.contains(item),
    {
        let mut k: usize = 0;
        while k < self.items.len()
            invariant
                k <= self.items@.len(),
                forall|q: int| 0 <= q < k ==> self.items@[q] != item,
            decreases self.items@.len() - k,
        {
            if self.items[k] == item {
                return true;
            }
            k = k + 1;
        }
        false
    }

    /// Unlocks an item: the first time, it is recorded and added to the
    /// shop's pool, and `true` comes back; an item already unlocked changes
    /// nothing.
    pub fn unlock(&mut self, shop: &mut Shop, item: ItemKind) -> (r: bool)
        ensures
            r == !old(self).items@.contains(item),
            r ==> final(self).items@ == old(self).items@.push(item) && final(shop).known_kinds@
                == old(shop).known_kinds@.push(item),
            !r ==> final(self).items@ == old(self).items@ && final(shop).known_kinds@ == old(
                shop,
            ).known_kinds@,
            final(shop).offers@ == old(shop).offers@,
            final(shop).reroll_cost == old(shop).reroll_cost,
    {
        if self.contains(item) {
            return false;
        }
        self.items.push(item);
        shop.add_to_pool(item);
        true
    }

    /// Locks an item again: it is forgotten and leaves the shop's pool.
    pub fn lock(&mut self, shop: &mut Shop, item: ItemKind)
        ensures
            final(self).items@ == old(self).items@.filter(|k: ItemKind| k != item),
            final(shop).known_kinds@ == old(shop).known_kinds@.filter(|k: ItemKind| k != item),
            final(shop).offers@ == old(shop).offers@,
            final(shop).reroll_cost == old(shop).reroll_cost,
    {
        self.items = items_without(&self.items, item);
        shop.remove_from_pool(item);
    }

    /// A run starts: the item is locked, then unlocked again at once when
    /// its condition is `Always`.
    pub fn restart(&mut self, shop: &mut Shop, condition: UnlockCondition, item: ItemKind)
        ensures
            final(shop).offers@ == old(shop).offers@,
            final(shop).reroll_cost == old(shop).reroll_cost,
            condition == UnlockCondition::Always ==> final(self).items@ == old(self).items@.filter(
                |k: ItemKind| k != item,
            ).push(item) && final(shop).known_kinds@ == old(shop).known_kinds@.filter(
                |k: ItemKind| k != item,
            ).push(item),
            condition != UnlockCondition::Always ==> final(self).items@ == old(self).items@.filter(
                |k: ItemKind| k != item,
            ) && final(shop).known_kinds@ == old(shop).known_kinds@.filter(|k: ItemKind| k != item),
    {
        self.lock(shop, item);
        if condition == UnlockCondition::Always {
            proof {
                lemma_filtered_lacks(old(self).items@, item);
            }
            let fresh = self.unlock(shop, item);
            assert(fresh);
        }
    }

    /// The check made while a run goes on: an item still locked whose
    /// condition the new towers or purchases meet is unlocked. Gives whether
    /// it was.
    pub fn check(
        &mut self,
        shop: &mut Shop,
        condition: UnlockCondition,
        item: ItemKind,
        new_towers: &[TowerKind],
        purchased: &[ItemKind],
    ) -> (r: bool)
        ensures
            r == (!old(self).items@.contains(item) && match condition {
                UnlockCondition::Always => false,
                UnlockCondition::Tower(t) => new_towers@.contains(t),
                UnlockCondition::Item(i) => purchased@.contains(i),
            }),
            r ==> final(self).items@ == old(self).items@.push(item) && final(shop).known_kinds@
                == old(shop).known_kinds@.push(item),
            !r ==> final(self).items@ == old(self).items@ && final(shop).known_kinds@ == old(
                shop,
            ).known_kinds@,
            final(shop).offers@ == old(shop).offers@,
            final(shop).reroll_cost == old(shop).reroll_cost,
    {
        if self.contains(item) {
            return false;
        }
        if condition.met_by(new_towers, purchased) {
            self.unlock(shop, item)
        } else {
            false
        }
    }
}

/// With every copy of `item` filtered out, `item` is absent.
proof fn lemma_filtered_lacks(s: Seq<ItemKind>, item: ItemKind)
    ensures
        !s.filter(|k: ItemKind| k != item).contains(item),
{
    let f = s.filter(|k: ItemKind| k != item);
    if f.contains(item) {
        let q = choose|q: int| 0 <= q < f.len() && f[q] == item;
        s.lemma_filter_pred(|k: ItemKind| k != item, q);
    }
}

} // verus!
