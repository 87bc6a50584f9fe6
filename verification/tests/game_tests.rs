use tower_defense::components::EnemyKind;
use tower_defense::game::{
    end_of_round, enemy_leak, golem_kill, hud_status, kill_loot, regenerate, RoundEnd,
};
use tower_defense::regions::{RegionDefinition, RegionMap};
use tower_defense::strat;

#[test]
fn end_of_wave_rules() {
    assert_eq!(regenerate(10, 3, 20), 13);
    assert_eq!(regenerate(19, 3, 20), 20);
    assert_eq!(regenerate(10, 0, 20), 10);
    assert_eq!(regenerate(25, -2, 20), 25);
    assert_eq!(end_of_round(3, 10), RoundEnd::NextWave(4));
    assert_eq!(end_of_round(10, 10), RoundEnd::Won);
    assert_eq!(end_of_round(12, 10), RoundEnd::Won);
}

#[test]
fn leaks_and_kills() {
    assert_eq!(enemy_leak(5), (4, false));
    assert_eq!(enemy_leak(1), (0, true));
    assert_eq!(enemy_leak(-3), (-4, true));
    assert_eq!(kill_loot(2, 3), 5);
    assert_eq!(kill_loot(2, -5), 0);
    assert_eq!(EnemyKind::Titan.reward(), 15);
    assert_eq!(EnemyKind::Runner.reward(), 1);
    assert!(EnemyKind::Titan.drops_spell());
    assert!(!EnemyKind::Grunt.drops_spell());
}

#[test]
fn golem_gains_earth_every_tenth_kill() {
    let mut kills = 0;
    let mut earth = 0;
    for _ in 0..35 {
        let (k, gained) = golem_kill(kills);
        kills = k;
        earth += gained;
        if kills % 10 == 0 {
            assert_eq!(gained, 1);
        } else {
            assert_eq!(gained, 0);
        }
    }
    assert_eq!(kills, 35);
    assert_eq!(earth, 3);
}

#[test]
fn hud_status_precedence() {
    assert_eq!(hud_status(true, true, true, true), Some("Victory — press R to restart"));
    assert_eq!(hud_status(false, true, true, false), Some("Game over — press R to restart"));
    assert_eq!(hud_status(false, false, true, true), Some("Paused — press Space to resume"));
    assert_eq!(hud_status(false, false, false, true), Some("Left click on the map to place your tower"));
    assert_eq!(hud_status(false, false, false, false), None);
}

#[test]
fn later_regions_take_tiles_over() {
    let map = RegionMap::from_definitions(vec![
        RegionDefinition { name: "West".to_string(), tiles: vec![(0, 0), (1, 0)] },
        RegionDefinition { name: "East".to_string(), tiles: vec![(1, 0), (2, 0)] },
    ]);
    assert_eq!(map.regions.len(), 2);
    assert_eq!(map.region_at((0, 0)).map(|r| r.name.as_str()), Some("West"));
    assert_eq!(map.region_at((1, 0)).map(|r| r.name.as_str()), Some("East"));
    assert_eq!(map.region_at((2, 0)).map(|r| r.name.as_str()), Some("East"));
    assert!(map.region_at((5, 5)).is_none());
}

#[test]
fn simple_variant_rules() {
    assert_eq!(strat::enemies_in_wave(1), 11);
    assert_eq!(strat::enemies_in_wave(4), 20);
    assert_eq!(strat::spawn_index(1, 11), 0);
    assert_eq!(strat::spawn_index(1, 1), 10);
    assert_eq!(strat::EnemyKind::for_spawn(1, 2), strat::EnemyKind::Grunt);
    assert_eq!(strat::EnemyKind::for_spawn(2, 2), strat::EnemyKind::Runner);
    assert_eq!(strat::EnemyKind::for_spawn(3, 4), strat::EnemyKind::Brute);
    assert_eq!(strat::EnemyKind::for_spawn(5, 6), strat::EnemyKind::Armored);
    assert_eq!(strat::EnemyKind::for_spawn(5, 34), strat::EnemyKind::Armored);
    assert_eq!(strat::EnemyKind::for_spawn(4, 14), strat::EnemyKind::Brute);
    assert_eq!(strat::EnemyKind::Grunt.reward(3), 15);
    assert_eq!(strat::EnemyKind::Brute.reward(3), 34);
    let mut money = strat::STARTING_MONEY;
    assert!(strat::try_buy_tower(&mut money));
    assert_eq!(money, 80);
    let mut poor = 39;
    assert!(!strat::try_buy_tower(&mut poor));
    assert_eq!(poor, 39);
    assert_eq!(strat::passive_income(10, 2, false), 12);
    assert_eq!(strat::passive_income(10, 2, true), 10);
    assert_eq!(strat::passive_income(10, 0, false), 10);
}
