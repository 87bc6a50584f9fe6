use tower_defense::editor::{
    apply_name_key, kinds_for_cells, new_path, new_region, paint_tile, sparse_overrides, toggle_selection,
    toggle_tile, EditorMode, EditorSelection, NameInput, NameKey,
};
use tower_defense::paths::PathId;
use tower_defense::terrain::TerrainKind;
use tower_defense::tooltip::{colored, highlight_description, plain, push_line, Highlight};

#[test]
fn modes_cycle() {
    let m = EditorMode::Terrain;
    assert_eq!(m.next(), EditorMode::Regions);
    assert_eq!(m.next().next(), EditorMode::Paths);
    assert_eq!(m.next().next().next(), m);
    assert_eq!(EditorMode::Regions.label(), "Regions");
}

#[test]
fn switching_mode_drops_typing_and_foreign_selections() {
    let mut sel = EditorSelection::new();
    sel.selected_region = Some(2);
    sel.selected_path = Some(1);
    sel.naming_region = true;
    sel.region_name_buffer = "Half".to_string();
    sel.toggle_mode();
    assert_eq!(sel.mode, EditorMode::Regions);
    assert_eq!(sel.selected_region, Some(2));
    assert_eq!(sel.selected_path, None);
    assert!(!sel.naming_region);
    assert_eq!(sel.region_name_buffer, "");
    sel.toggle_mode();
    assert_eq!(sel.selected_region, None);
    sel.select_palette_index(5);
    assert_eq!(sel.current_kind, TerrainKind::PineForest);
}

#[test]
fn clicking_tiles_and_lists() {
    let mut tiles = vec![(0, 0), (1, 0)];
    toggle_tile(&mut tiles, (2, 0));
    assert_eq!(tiles, vec![(0, 0), (1, 0), (2, 0)]);
    toggle_tile(&mut tiles, (0, 0));
    assert_eq!(tiles, vec![(1, 0), (2, 0)]);
    toggle_tile(&mut tiles, (5, 5));
    toggle_tile(&mut tiles, (5, 5));
    assert_eq!(tiles, vec![(1, 0), (2, 0)]);
    assert_eq!(toggle_selection(None, 3), Some(3));
    assert_eq!(toggle_selection(Some(3), 3), None);
    assert_eq!(toggle_selection(Some(1), 3), Some(3));
}

#[test]
fn painting_and_saving_tiles() {
    let mut kinds = vec![((0, 0), TerrainKind::Plains), ((1, 0), TerrainKind::Forest)];
    assert_eq!(paint_tile(&mut kinds, (0, 0), TerrainKind::Desert), Some(TerrainKind::Plains));
    assert_eq!(paint_tile(&mut kinds, (0, 0), TerrainKind::Desert), None);
    assert_eq!(paint_tile(&mut kinds, (9, 9), TerrainKind::Desert), None);
    assert_eq!(kinds, vec![((0, 0), TerrainKind::Desert), ((1, 0), TerrainKind::Forest)]);
    paint_tile(&mut kinds, (1, 0), TerrainKind::Plains);
    assert_eq!(sparse_overrides(&kinds), vec![((0, 0), TerrainKind::Desert)]);
}

#[test]
fn typing_a_name() {
    let mut buffer = String::new();
    assert_eq!(apply_name_key(&mut buffer, &NameKey::Character("Ab".to_string())), NameInput::Typing);
    assert_eq!(apply_name_key(&mut buffer, &NameKey::Space), NameInput::Typing);
    assert_eq!(apply_name_key(&mut buffer, &NameKey::Character("cd".to_string())), NameInput::Typing);
    assert_eq!(apply_name_key(&mut buffer, &NameKey::Backspace), NameInput::Typing);
    assert_eq!(buffer, "Ab c");
    assert_eq!(apply_name_key(&mut buffer, &NameKey::Space), NameInput::Typing);
    assert_eq!(
        apply_name_key(&mut buffer, &NameKey::Enter),
        NameInput::Confirmed(Some("Ab c".to_string()))
    );
    assert_eq!(buffer, "");
    assert_eq!(apply_name_key(&mut buffer, &NameKey::Backspace), NameInput::Typing);
    assert_eq!(apply_name_key(&mut buffer, &NameKey::Space), NameInput::Typing);
    assert_eq!(apply_name_key(&mut buffer, &NameKey::Enter), NameInput::Confirmed(None));
    buffer = "x".to_string();
    assert_eq!(apply_name_key(&mut buffer, &NameKey::Escape), NameInput::Cancelled);
    assert_eq!(buffer, "");
    let r = new_region("Bay".to_string());
    assert_eq!(r.name, "Bay");
    assert!(r.tiles.is_empty());
    let p = new_path(4, "Fork".to_string());
    assert_eq!(p.id, PathId(4));
    assert_eq!(p.level, 0);
}

#[test]
fn descriptions_highlight_elements_and_money() {
    let segs = highlight_description("Deals Fire damage, earns $5. water");
    let view: Vec<(String, Option<Highlight>)> =
        segs.into_iter().map(|s| (s.text, s.color)).collect();
    let expected: Vec<(&str, Option<Highlight>)> = vec![
        ("Deals", None),
        (" ", None),
        ("Fire", Some(Highlight::Fire)),
        (" ", None),
        ("damage", None),
        (",", None),
        (" ", None),
        ("earns", None),
        (" ", None),
        ("$5", Some(Highlight::Money)),
        (".", None),
        (" ", None),
        ("water", Some(Highlight::Water)),
    ];
    assert_eq!(view.len(), expected.len());
    for ((t, c), (et, ec)) in view.iter().zip(expected.iter()) {
        assert_eq!(t, et);
        assert_eq!(c, ec);
    }
    let mut segments = Vec::new();
    let mut first = true;
    push_line(&mut segments, &mut first, vec![plain("a".to_string())]);
    push_line(&mut segments, &mut first, vec![colored("b".to_string(), Highlight::Air)]);
    let texts: Vec<&str> = segments.iter().map(|s| s.text.as_str()).collect();
    assert_eq!(texts, vec!["a", "\n", "b"]);
    assert!(!first);
}

#[test]
fn cells_without_override_are_plains() {
    let cells = vec![(0, 0), (1, 0), (0, 1)];
    let overrides = vec![((1, 0), TerrainKind::Mountain), ((5, 5), TerrainKind::Desert)];
    assert_eq!(
        kinds_for_cells(&cells, &overrides),
        vec![
            ((0, 0), TerrainKind::Plains),
            ((1, 0), TerrainKind::Mountain),
            ((0, 1), TerrainKind::Plains),
        ]
    );
    assert!(kinds_for_cells(&[], &overrides).is_empty());
}

#[test]
fn editor_help_text_per_mode() {
    let mut regions = vec![new_region("Marsh".to_string())];
    regions[0].tiles = vec![(0, 0), (1, 0)];
    let mut paths = vec![new_path(0, "Root".to_string())];
    paths[0].tiles = vec![(0, 0)];
    paths[0].level = 2;
    let mut sel = EditorSelection::new();
    assert_eq!(
        sel.hud_text(&regions, &paths, "terrain_map.txt"),
        "Terrain Map Editor — Terrain\nWASD: pan  |  1-8 or click: pick tile  |  click/drag: paint  |  G: randomize  |  Tab: switch mode  |  SAVE: write terrain_map.txt\n\nPainting: Plains"
    );
    sel.toggle_mode();
    assert_eq!(
        sel.hud_text(&regions, &paths, "m.txt"),
        "Terrain Map Editor — Regions\nWASD: pan  |  click list: select region  |  click map: toggle tile  |  Tab: switch mode  |  SAVE: write m.txt\n\nNo region selected"
    );
    sel.selected_region = Some(0);
    assert!(sel.hud_text(&regions, &paths, "m.txt").ends_with("\n\nSelected: Marsh (2 tiles)"));
    sel.naming_region = true;
    sel.region_name_buffer = "Hi".to_string();
    assert_eq!(
        sel.hud_text(&regions, &paths, "m.txt"),
        "Terrain Map Editor — Regions\nType region name: Hi_\nEnter: confirm  |  Esc: cancel"
    );
    sel.toggle_mode();
    sel.selected_path = Some(0);
    assert!(sel
        .hud_text(&regions, &paths, "m.txt")
        .ends_with("\n\nSelected: Root (L2, 1 tiles, 0 enemy groups)"));
    sel.naming_path = true;
    assert_eq!(
        sel.hud_text(&regions, &paths, "m.txt"),
        "Terrain Map Editor — Paths\nType path name: _\nEnter: confirm  |  Esc: cancel"
    );
}

#[test]
fn confirming_a_region_name_adds_and_selects_it() {
    let mut sel = EditorSelection::new();
    sel.toggle_mode();
    let mut regions = vec![new_region("Marsh".to_string())];
    sel.naming_region = true;
    sel.region_name_key(&mut regions, &NameKey::Character("  Hi".to_string()));
    sel.region_name_key(&mut regions, &NameKey::Space);
    assert!(sel.naming_region);
    assert_eq!(regions.len(), 1);
    sel.region_name_key(&mut regions, &NameKey::Enter);
    assert!(!sel.naming_region);
    assert_eq!(sel.region_name_buffer, "");
    assert_eq!(regions.len(), 2);
    assert_eq!(regions[1].name, "Hi");
    assert!(regions[1].tiles.is_empty());
    assert_eq!(sel.selected_region, Some(1));
    // A blank name or Escape adds nothing.
    sel.naming_region = true;
    sel.region_name_key(&mut regions, &NameKey::Space);
    sel.region_name_key(&mut regions, &NameKey::Enter);
    assert_eq!(regions.len(), 2);
    assert!(!sel.naming_region);
    sel.naming_region = true;
    sel.region_name_key(&mut regions, &NameKey::Character("X".to_string()));
    sel.region_name_key(&mut regions, &NameKey::Escape);
    assert_eq!(regions.len(), 2);
    assert_eq!(sel.selected_region, Some(1));
    assert!(!sel.naming_region);
}

#[test]
fn confirming_a_path_name_adds_a_numbered_path() {
    let mut sel = EditorSelection::new();
    let mut paths = vec![new_path(0, "Root".to_string())];
    sel.naming_path = true;
    sel.path_name_key(&mut paths, &NameKey::Character("East ".to_string()));
    sel.path_name_key(&mut paths, &NameKey::Enter);
    assert!(!sel.naming_path);
    assert_eq!(paths.len(), 2);
    assert_eq!(paths[1].id, PathId(1));
    assert_eq!(paths[1].name, "East");
    assert!(paths[1].tiles.is_empty() && paths[1].enemies.is_empty());
    assert_eq!(sel.selected_path, Some(1));
}
