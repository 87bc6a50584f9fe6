use tower_defense::resources::{
    arrange_offers, spell_key, ForcedTowerOffers, ItemKind, PlayerStatKind, Shop, ShopOffer,
    SpawnTimer, SpellKind, SpellShop, TowerDraft, TowerDraftPhase, unknown_tower_name,
};
use tower_defense::tower_definitions::{TowerKind, ALL_TOWER_KINDS};

#[test]
fn spells_fill_the_first_free_slot() {
    let mut shop = SpellShop::new_empty();
    assert!(!shop.store_random_spell());
    assert!(shop.store_spell(SpellKind::Slow));
    assert!(shop.store_spell(SpellKind::Ignite));
    assert_eq!(shop.take_spell(0), Some(SpellKind::Slow));
    assert_eq!(shop.take_spell(0), None);
    assert!(shop.store_spell(SpellKind::ElementalSurge));
    assert_eq!(shop.slots, [Some(SpellKind::ElementalSurge), Some(SpellKind::Ignite), None]);
    assert!(shop.store_spell(SpellKind::Slow));
    assert!(!shop.store_spell(SpellKind::Slow));
    assert_eq!(shop.take_spell(7), None);
    shop.known_kinds = vec![SpellKind::Ignite];
    shop.reset();
    assert_eq!(shop.slots, [None, None, None]);
    assert!(shop.store_random_spell());
    assert_eq!(shop.slots[0], Some(SpellKind::Ignite));
    assert_eq!(SpellKind::ElementalSurge.name(), "Surge");
    assert_eq!(SpellKind::Slow.description(), "Slows all enemies until wave end");
    assert_eq!((spell_key(0), spell_key(1), spell_key(2), spell_key(5)), ("Z", "X", "C", "C"));
}

#[test]
fn stat_names() {
    assert_eq!(PlayerStatKind::MaxHp.name(), "Max HP");
    assert_eq!(PlayerStatKind::Loot.name(), "loot");
    assert!(PlayerStatKind::CriticalChance.is_percent());
    assert!(!PlayerStatKind::Piercing.is_percent());
}

#[test]
fn draft_offers_for_given_rolls() {
    let kinds = ALL_TOWER_KINDS.to_vec();
    assert_eq!(
        arrange_offers(&kinds, None, &[0, 0, 0]),
        vec![TowerKind::Ballista, TowerKind::Cannon, TowerKind::Sprayer]
    );
    assert_eq!(
        arrange_offers(&kinds, None, &[3, 2, 1]),
        vec![TowerKind::Sniper, TowerKind::Ballista, TowerKind::Cannon]
    );
    assert_eq!(
        arrange_offers(&kinds, Some(TowerKind::Sprayer), &[0, 0, 0]),
        vec![TowerKind::Sprayer, TowerKind::Cannon, TowerKind::Ballista]
    );
}

#[test]
fn draft_activation_uses_up_the_forced_queue() {
    let mut forced = ForcedTowerOffers::from_args(
        vec!["game".to_string(), "--towers=sniper, CANNON,,".to_string()],
        &ALL_TOWER_KINDS,
    );
    assert_eq!(forced.queue, vec![TowerKind::Sniper, TowerKind::Cannon]);
    let mut draft = TowerDraft::new_empty();
    draft.known_kinds = ALL_TOWER_KINDS.to_vec();
    draft.phase = TowerDraftPhase::WaveRunning;
    draft.activate(&mut forced);
    assert_eq!(draft.phase, TowerDraftPhase::Picking);
    assert_eq!(draft.offers.len(), 3);
    assert_eq!(draft.offers[0], TowerKind::Sniper);
    assert!(draft.offers[1] != draft.offers[0] && draft.offers[2] != draft.offers[1]);
    assert!(draft.offers[2] != draft.offers[0]);
    draft.activate(&mut forced);
    assert_eq!(draft.offers[0], TowerKind::Cannon);
    assert!(forced.queue.is_empty());
    forced.reset();
    assert_eq!(forced.queue, vec![TowerKind::Sniper, TowerKind::Cannon]);
}

#[test]
fn forced_towers_from_arguments() {
    let none = ForcedTowerOffers::from_args(vec!["--fast".to_string()], &ALL_TOWER_KINDS);
    assert!(none.queue.is_empty());
    let args = vec!["--towers=ballista,Catapult".to_string()];
    assert_eq!(unknown_tower_name(&args, &ALL_TOWER_KINDS), Some("Catapult".to_string()));
    let args = vec!["--towers=Ballista".to_string(), "--towers=Nope".to_string()];
    assert_eq!(unknown_tower_name(&args, &ALL_TOWER_KINDS), None);
    assert_eq!(ForcedTowerOffers::from_args(args, &ALL_TOWER_KINDS).queue, vec![TowerKind::Ballista]);
    assert_eq!(TowerKind::Sprayer.name(), "Sprayer");
    assert_eq!(TowerKind::Cannon.cost(), 16);
}

#[test]
fn buying_from_the_shop() {
    let mut shop = Shop::new_empty();
    shop.known_kinds = vec![ItemKind(4), ItemKind(7)];
    shop.activate(&[5, 9], 2);
    assert_eq!(shop.reroll_cost, 2);
    for offer in shop.offers {
        let o = offer.unwrap();
        assert!((o.item == ItemKind(4) && o.cost == 5) || (o.item == ItemKind(7) && o.cost == 9));
    }
    shop.offers = [Some(ShopOffer { item: ItemKind(4), cost: 5 }), None, Some(ShopOffer { item: ItemKind(7), cost: 9 })];
    let mut money = 8;
    assert_eq!(shop.buy(&mut money, 2), None);
    assert_eq!(money, 8);
    assert_eq!(shop.buy(&mut money, 1), None);
    assert_eq!(shop.buy(&mut money, 0), Some(ShopOffer { item: ItemKind(4), cost: 5 }));
    assert_eq!(money, 3);
    assert_eq!(shop.offers[0], None);
    assert!(shop.pay_reroll(&mut money));
    assert_eq!(money, 1);
    assert!(!shop.pay_reroll(&mut money));
    assert_eq!(shop.take_offer(2), Some(ShopOffer { item: ItemKind(7), cost: 9 }));
    let mut empty = Shop::new_empty();
    empty.activate(&[], 3);
    assert_eq!(empty.offers, [None, None, None]);
}

#[test]
fn spawn_counts_read_back() {
    let mut timer = SpawnTimer::new();
    assert_eq!(timer.spawned_in_group(2), 0);
    timer.set_spawned_in_group(2, 5);
    assert_eq!(timer.spawned_by_group, vec![0, 0, 5]);
    assert_eq!(timer.spawned_in_group(2), 5);
    timer.set_spawned_in_group(0, 1);
    assert_eq!(timer.spawned_in_group(0), 1);
    assert_eq!(timer.spawned_in_group(2), 5);
    timer.reset();
    assert_eq!(timer.spawned_in_group(0), 0);
}

#[test]
fn picking_then_placing_a_tower_starts_the_wave() {
    let mut draft = TowerDraft::new_empty();
    draft.offers = vec![TowerKind::Cannon, TowerKind::Sniper, TowerKind::Ballista];
    assert_eq!(draft.finish_placing(), None);
    assert_eq!(draft.phase, TowerDraftPhase::Picking);
    draft.pick_offer(1);
    assert_eq!(draft.phase, TowerDraftPhase::Placing(TowerKind::Sniper));
    // A second click while placing changes nothing.
    draft.pick_offer(0);
    assert_eq!(draft.phase, TowerDraftPhase::Placing(TowerKind::Sniper));
    assert_eq!(draft.finish_placing(), Some(TowerKind::Sniper));
    assert_eq!(draft.phase, TowerDraftPhase::WaveRunning);
    assert_eq!(draft.finish_placing(), None);
    assert_eq!(draft.phase, TowerDraftPhase::WaveRunning);
}

#[test]
fn rolled_spell_is_the_roll_modulo_the_known_kinds() {
    let mut shop = SpellShop::new_empty();
    assert!(!shop.store_rolled_spell(4));
    assert_eq!(shop.slots, [None, None, None]);
    shop.known_kinds = vec![SpellKind::Ignite, SpellKind::ElementalSurge, SpellKind::Slow];
    assert!(shop.store_rolled_spell(4));
    assert!(shop.store_rolled_spell(6));
    assert!(shop.store_rolled_spell(2));
    assert_eq!(
        shop.slots,
        [Some(SpellKind::ElementalSurge), Some(SpellKind::Ignite), Some(SpellKind::Slow)]
    );
    assert!(!shop.store_rolled_spell(0));
}
