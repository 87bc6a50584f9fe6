use tower_defense::components::EnemyKind;
use tower_defense::paths::{
    collect_connected_tiles, compute_exclusions, compute_parents, PathDefinition, PathEnemyGroup,
    PathId, PathMap,
};
use tower_defense::validation::{has_cycle, validate_paths, PathError};

fn path(id: usize, name: &str, tiles: &[(i32, i32)], groups: &[(EnemyKind, u32)]) -> PathDefinition {
    PathDefinition {
        id: PathId(id),
        name: name.to_string(),
        tiles: tiles.to_vec(),
        enemies: groups
            .iter()
            .map(|&(kind, count)| PathEnemyGroup { kind, count, cooldown: "1.5".to_string() })
            .collect(),
        level: 0,
        unlocks: Vec::new(),
        excludes: Vec::new(),
    }
}

/// Root path 0 ending at (1,0); paths 1 and 2 both start there; path 3
/// ends on path 1's end tile without a junction.
fn network() -> Vec<PathDefinition> {
    vec![
        path(0, "Root", &[(0, 0), (1, 0)], &[(EnemyKind::Grunt, 3)]),
        path(1, "East", &[(1, 0), (2, 0)], &[(EnemyKind::Runner, 2), (EnemyKind::Brute, 1)]),
        path(2, "North", &[(1, 0), (1, 1)], &[(EnemyKind::Titan, 1)]),
        path(3, "Cross", &[(3, -1), (2, 0)], &[]),
    ]
}

#[test]
fn parents_are_the_paths_ending_where_a_path_starts() {
    let paths = network();
    let parents = compute_parents(&paths);
    assert_eq!(parents.get(PathId(1)).cloned(), Some(vec![PathId(0)]));
    assert_eq!(parents.get(PathId(2)).cloned(), Some(vec![PathId(0)]));
    assert_eq!(parents.get(PathId(0)).cloned(), None);
    assert_eq!(parents.get(PathId(3)).cloned(), None);
    assert!(parents.contains_key(PathId(1)));
    assert!(!parents.contains_key(PathId(3)));
}

#[test]
fn shared_start_is_a_junction_but_shared_end_crosses() {
    let paths = network();
    assert_eq!(compute_exclusions(&paths), vec![(PathId(1), PathId(3))]);
}

#[test]
fn placement_follows_parents_and_exclusions() {
    let mut map = PathMap::from_definitions(network());
    assert!(map.is_placeable(PathId(0)));
    assert!(!map.is_placeable(PathId(1)));
    map.reset_placed();
    assert_eq!(map.placed, vec![PathId(0)]);
    assert!(map.is_placed(PathId(0)));
    assert!(!map.is_placeable(PathId(0)));
    assert!(map.is_placeable(PathId(1)));
    assert!(map.is_placeable(PathId(2)));
    assert!(!map.is_placeable(PathId(3)));
    assert_eq!(map.placeable_paths(), vec![PathId(1), PathId(2)]);
    map.placed.push(PathId(1));
    assert_eq!(map.placeable_paths(), vec![PathId(2)]);
}

#[test]
fn terminals_and_enemy_count() {
    let mut map = PathMap::from_definitions(network());
    map.reset_placed();
    assert_eq!(map.terminal_paths(), vec![PathId(0)]);
    assert_eq!(map.total_enemy_count(), 3);
    map.placed.push(PathId(1));
    map.placed.push(PathId(2));
    assert_eq!(map.terminal_paths(), vec![PathId(1), PathId(2)]);
    assert_eq!(map.total_enemy_count(), 4);
}

#[test]
fn route_runs_from_the_root_to_the_terminal() {
    let mut map = PathMap::from_definitions(network());
    map.reset_placed();
    map.placed.push(PathId(2));
    assert_eq!(map.full_route_tiles(PathId(2)), vec![(0, 0), (1, 0), (1, 1)]);
    assert_eq!(map.full_route_tiles(PathId(0)), vec![(0, 0), (1, 0)]);
    assert_eq!(map.path_tiles(PathId(3)), &vec![(3, -1), (2, 0)]);
}

#[test]
fn connected_tiles_are_both_directions_of_each_edge() {
    let mut map = PathMap::from_definitions(network());
    map.reset_placed();
    map.placed.push(PathId(1));
    let edges = collect_connected_tiles(&map);
    let expected = [
        ((0, 0), (1, 0)),
        ((1, 0), (0, 0)),
        ((1, 0), (2, 0)),
        ((2, 0), (1, 0)),
        ((1, 0), (1, 0)),
    ];
    assert_eq!(edges.len(), expected.len());
    for e in expected {
        assert!(edges.contains(&e), "missing {:?}", e);
    }
}

#[test]
fn valid_network_has_no_errors() {
    let paths = network();
    let errors = validate_paths(&paths);
    assert_eq!(errors, vec![PathError::OrphanPath(PathId(3))]);
    assert_eq!(
        errors[0].message(&paths),
        "'Cross': no parent (must start where another path ends)"
    );
}

#[test]
fn shape_errors_and_messages() {
    let paths = vec![
        path(0, "Root", &[(0, 0), (1, 0), (3, 0)], &[]),
        path(1, "Empty", &[], &[]),
    ];
    let errors = validate_paths(&paths);
    assert_eq!(
        errors,
        vec![
            PathError::NonAdjacentTile { path_id: PathId(0), tile_index: 2 },
            PathError::EmptyPath(PathId(1)),
            PathError::OrphanPath(PathId(1)),
        ]
    );
    assert_eq!(errors[0].message(&paths), "'Root': tile 2 not adjacent to tile 1");
    assert_eq!(errors[1].message(&paths), "'Empty': no tiles");
    assert_eq!(PathError::EmptyPath(PathId(9)).message(&paths), "'?': no tiles");
    assert_eq!(PathError::CycleDetected.message(&paths), "Unlock graph has a cycle");
}

#[test]
fn loop_of_paths_is_a_cycle() {
    let paths = vec![
        path(0, "Root", &[(0, 0), (1, 0)], &[]),
        path(1, "Out", &[(1, 0), (2, 0)], &[]),
        path(2, "Back", &[(2, 0), (1, 0)], &[]),
    ];
    let parents = compute_parents(&paths);
    assert!(has_cycle(&paths, &parents));
    let errors = validate_paths(&paths);
    assert_eq!(errors.last(), Some(&PathError::CycleDetected));
    let tree = network();
    assert!(!has_cycle(&tree, &compute_parents(&tree)));
}

#[test]
fn clicking_a_tile_places_the_first_placeable_path_there() {
    let mut map = PathMap::from_definitions(network());
    map.reset_placed();
    // (2, 0) is on East and Cross; only East continues a placed path.
    assert_eq!(map.place_at((2, 0)), Some(PathId(1)));
    assert_eq!(map.placed, vec![PathId(0), PathId(1)]);
    // Cross now crosses East, and North's tile (1, 1) is still free.
    assert_eq!(map.place_at((3, -1)), None);
    assert_eq!(map.place_at((5, 5)), None);
    assert_eq!(map.placed, vec![PathId(0), PathId(1)]);
    assert_eq!(map.place_at((1, 1)), Some(PathId(2)));
    assert_eq!(map.placed, vec![PathId(0), PathId(1), PathId(2)]);
    // Nothing placed twice.
    assert_eq!(map.place_at((1, 1)), None);
}

#[test]
fn only_placed_paths_cover_their_tiles() {
    let mut map = PathMap::from_definitions(network());
    assert!(!map.placed_covers((0, 0)));
    map.reset_placed();
    assert!(map.placed_covers((0, 0)));
    assert!(map.placed_covers((1, 0)));
    assert!(!map.placed_covers((2, 0)));
    map.place_at((2, 0));
    assert!(map.placed_covers((2, 0)));
    assert!(!map.placed_covers((3, -1)));
}
