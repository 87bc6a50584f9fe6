use tower_defense::components::EnemyKind;
use tower_defense::paths::{PathDefinition, PathEnemyGroup, PathId};
use tower_defense::regions::RegionDefinition;
use tower_defense::terrain::{TerrainKind, ALL_TERRAIN_KINDS, DEFAULT_TERRAIN_KIND};
use tower_defense::terrain_file::{
    enemy_kind_key, parse_enemy_group, parse_path_line, parse_region_line, parse_terrain_file,
    sorted_entries, terrain_file_text,
};

const SAMPLE: &str = "# a map\n\
3 -2 Mountain\n\
0 0 WaterBody\n\
1 1 Nowhere\n\
x 1 Forest\n\
3 -2 Desert\n\
\n\
[regions]\n\
North Reach: 0,0 1,0\n\
Broken: 0,0 1\n\
  Shore : 5,5  \r\n\
[paths]\n\
Main | 0,0 1,0 | Grunt:3:1.5 Bogus:1:1 Titan:1:0.25 | 2 | East, West | South\n\
Short | 1,0 2,0 | | x\n\
Bad | 1,0 q | | 1\n\
Tiny | 2,0 | Runner:2:2 |\n\
[other]\n\
4 4 Volcano\n";

fn names(v: &[String]) -> Vec<&str> {
    v.iter().map(|s| s.as_str()).collect()
}

#[test]
fn kinds_have_names_and_keys() {
    assert_eq!(ALL_TERRAIN_KINDS.len(), 8);
    assert_eq!(DEFAULT_TERRAIN_KIND, TerrainKind::Plains);
    assert_eq!(TerrainKind::WaterBody.name(), "Water");
    assert_eq!(TerrainKind::WaterBody.key(), "WaterBody");
    assert_eq!(TerrainKind::PineForest.name(), "Pine Forest");
    for kind in ALL_TERRAIN_KINDS {
        assert_eq!(TerrainKind::from_key(kind.key()), Some(kind));
    }
    assert_eq!(TerrainKind::from_key("water"), None);
    assert_eq!(enemy_kind_key(EnemyKind::Armored), "Armored");
}

#[test]
fn reading_a_map_file() {
    let data = parse_terrain_file(SAMPLE);
    assert_eq!(
        data.overrides,
        vec![((3, -2), TerrainKind::Desert), ((0, 0), TerrainKind::WaterBody), ((4, 4), TerrainKind::Volcano)]
    );
    assert_eq!(data.regions.len(), 2);
    assert_eq!(data.regions[0].name, "North Reach");
    assert_eq!(data.regions[0].tiles, vec![(0, 0), (1, 0)]);
    assert_eq!(data.regions[1].name, "Shore");
    assert_eq!(data.regions[1].tiles, vec![(5, 5)]);
    assert_eq!(data.paths.len(), 3);
    let main = &data.paths[0];
    assert_eq!(main.id, PathId(0));
    assert_eq!(main.name, "Main");
    assert_eq!(main.tiles, vec![(0, 0), (1, 0)]);
    assert_eq!(main.enemies.len(), 2);
    assert_eq!(main.enemies[0].kind, EnemyKind::Grunt);
    assert_eq!(main.enemies[0].count, 3);
    assert_eq!(main.enemies[0].cooldown, "1.5");
    assert_eq!(main.enemies[1].kind, EnemyKind::Titan);
    assert_eq!(main.level, 2);
    assert_eq!(names(&main.unlocks), vec!["East", "West"]);
    assert_eq!(names(&main.excludes), vec!["South"]);
    let short = &data.paths[1];
    assert_eq!(short.id, PathId(1));
    assert_eq!(short.level, 0);
    assert!(short.enemies.is_empty());
    assert!(short.unlocks.is_empty());
    let tiny = &data.paths[2];
    assert_eq!(tiny.id, PathId(2));
    assert_eq!(tiny.level, 0);
    assert_eq!(tiny.enemies[0].kind, EnemyKind::Runner);
}

#[test]
fn single_lines() {
    assert!(parse_region_line("Empty:").is_none());
    assert!(parse_region_line("No colon 1,1").is_none());
    let r = parse_region_line(" Lake : -1,2 ").unwrap();
    assert_eq!(r.name, "Lake");
    assert_eq!(r.tiles, vec![(-1, 2)]);
    assert!(parse_path_line("a | 0,0 |", PathId(4)).is_none());
    assert!(parse_path_line("a | 0,0 | |", PathId(4)).is_some());
    let p = parse_path_line("a | 0,0 | Brute:7:3e-1 | 300", PathId(4)).unwrap();
    assert_eq!(p.id, PathId(4));
    assert_eq!(p.level, 0);
    assert_eq!(p.enemies[0].count, 7);
    let g = parse_enemy_group("Armored:4:0.75:extra").unwrap();
    assert_eq!(g.kind, EnemyKind::Armored);
    assert_eq!(g.count, 4);
    assert_eq!(g.cooldown, "0.75");
    assert!(parse_enemy_group("Armored:4").is_none());
    assert!(parse_enemy_group("Armored:-4:1").is_none());
    assert!(parse_enemy_group("Armored:4:fast").is_none());
}

fn sample_paths() -> Vec<PathDefinition> {
    vec![
        PathDefinition {
            id: PathId(0),
            name: "Main".to_string(),
            tiles: vec![(0, 0), (1, -1)],
            enemies: vec![
                PathEnemyGroup { kind: EnemyKind::Grunt, count: 3, cooldown: "1.5".to_string() },
                PathEnemyGroup { kind: EnemyKind::Titan, count: 1, cooldown: "4".to_string() },
            ],
            level: 1,
            unlocks: vec!["B".to_string()],
            excludes: Vec::new(),
        },
        PathDefinition {
            id: PathId(1),
            name: "B".to_string(),
            tiles: Vec::new(),
            enemies: Vec::new(),
            level: 0,
            unlocks: Vec::new(),
            excludes: vec!["C".to_string(), "D".to_string()],
        },
    ]
}

#[test]
fn writing_a_map_file() {
    let overrides = vec![((2, 1), TerrainKind::Forest), ((-3, 5), TerrainKind::Desert), ((2, -1), TerrainKind::Volcano)];
    assert_eq!(
        sorted_entries(&overrides),
        vec![((-3, 5), TerrainKind::Desert), ((2, -1), TerrainKind::Volcano), ((2, 1), TerrainKind::Forest)]
    );
    let regions = vec![RegionDefinition { name: "Hills".to_string(), tiles: vec![(0, 1), (-2, 3)] }];
    let text = terrain_file_text(&overrides, &regions, &sample_paths());
    assert_eq!(
        text,
        "-3 5 Desert\n2 -1 Volcano\n2 1 Forest\n\n[regions]\nHills:0,1 -2,3\n\n[paths]\n\
Main | 0,0 1,-1 | Grunt:3:1.5 Titan:1:4 | 1 | B | \n\
B |  |  | 0 |  | C,D\n"
    );
    assert_eq!(terrain_file_text(&[], &[], &[]), "");
}

#[test]
fn what_is_written_reads_back() {
    let overrides = vec![((2, 1), TerrainKind::Forest), ((-3, 5), TerrainKind::Desert)];
    let regions = vec![RegionDefinition { name: "Hills".to_string(), tiles: vec![(0, 1), (-2, 3)] }];
    let paths = sample_paths();
    let text = terrain_file_text(&overrides, &regions, &paths);
    let data = parse_terrain_file(&text);
    assert_eq!(data.overrides, sorted_entries(&overrides));
    assert_eq!(data.regions.len(), 1);
    assert_eq!(data.regions[0].name, "Hills");
    assert_eq!(data.regions[0].tiles, regions[0].tiles);
    assert_eq!(data.paths.len(), 2);
    for (a, b) in data.paths.iter().zip(paths.iter()) {
        assert_eq!(a.id, b.id);
        assert_eq!(a.name, b.name);
        assert_eq!(a.tiles, b.tiles);
        assert_eq!(a.level, b.level);
        assert_eq!(a.unlocks, b.unlocks);
        assert_eq!(a.excludes, b.excludes);
        assert_eq!(a.enemies.len(), b.enemies.len());
        for (x, y) in a.enemies.iter().zip(b.enemies.iter()) {
            assert_eq!(x.kind, y.kind);
            assert_eq!(x.count, y.count);
            assert_eq!(x.cooldown, y.cooldown);
        }
    }
}
