use tower_defense::resources::{ItemKind, Shop};
use tower_defense::tower_definitions::TowerKind;
use tower_defense::unlocks::{UnlockCondition, UnlockedItems};

#[test]
fn unlocking_adds_an_item_to_the_pool_once() {
    let mut shop = Shop::new_empty();
    let mut unlocked = UnlockedItems::new();
    assert!(unlocked.unlock(&mut shop, ItemKind(4)));
    assert!(!unlocked.unlock(&mut shop, ItemKind(4)));
    assert_eq!(shop.known_kinds, vec![ItemKind(4)]);
    assert!(unlocked.contains(ItemKind(4)));
    assert!(!unlocked.contains(ItemKind(5)));
}

#[test]
fn restart_relocks_and_reunlocks_always_items() {
    let mut shop = Shop::new_empty();
    shop.add_to_pool(ItemKind(1));
    shop.add_to_pool(ItemKind(2));
    shop.add_to_pool(ItemKind(1));
    let mut unlocked = UnlockedItems::new();
    unlocked.unlock(&mut shop, ItemKind(3));
    unlocked.restart(&mut shop, UnlockCondition::Always, ItemKind(1));
    assert_eq!(shop.known_kinds, vec![ItemKind(2), ItemKind(3), ItemKind(1)]);
    unlocked.restart(&mut shop, UnlockCondition::Tower(TowerKind::Sprayer), ItemKind(3));
    assert_eq!(shop.known_kinds, vec![ItemKind(2), ItemKind(1)]);
    assert_eq!(unlocked.items, vec![ItemKind(1)]);
}

#[test]
fn conditions_unlock_on_their_tower_or_item() {
    let mut shop = Shop::new_empty();
    let mut unlocked = UnlockedItems::new();
    let by_tower = UnlockCondition::Tower(TowerKind::Sprayer);
    let by_item = UnlockCondition::Item(ItemKind(0));
    assert!(!unlocked.check(&mut shop, by_tower, ItemKind(7), &[TowerKind::Cannon], &[]));
    assert!(!unlocked.check(&mut shop, UnlockCondition::Always, ItemKind(8), &[TowerKind::Sprayer], &[]));
    assert!(unlocked.check(&mut shop, by_tower, ItemKind(7), &[TowerKind::Cannon, TowerKind::Sprayer], &[]));
    assert!(!unlocked.check(&mut shop, by_tower, ItemKind(7), &[TowerKind::Sprayer], &[]));
    assert!(!unlocked.check(&mut shop, by_item, ItemKind(9), &[], &[ItemKind(1)]));
    assert!(unlocked.check(&mut shop, by_item, ItemKind(9), &[], &[ItemKind(0)]));
    assert_eq!(shop.known_kinds, vec![ItemKind(7), ItemKind(9)]);
    assert!(by_item.met_by(&[], &[ItemKind(0)]));
    assert!(!UnlockCondition::Always.met_by(&[TowerKind::Sprayer], &[ItemKind(0)]));
}

#[test]
fn removing_from_the_pool_drops_every_copy() {
    let mut shop = Shop::new_empty();
    for k in [3, 1, 3, 2, 3] {
        shop.add_to_pool(ItemKind(k));
    }
    shop.remove_from_pool(ItemKind(3));
    assert_eq!(shop.known_kinds, vec![ItemKind(1), ItemKind(2)]);
    shop.remove_from_pool(ItemKind(9));
    assert_eq!(shop.known_kinds, vec![ItemKind(1), ItemKind(2)]);
}
