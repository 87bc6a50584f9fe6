use vstd::prelude::*;

use crate::hex::{same_hex, tile_get, tile_insert, tile_lookup, tile_set, Axial};
use crate::paths::{PathDefinition, PathId};
use crate::regions::RegionDefinition;
use crate::terrain::{TerrainKind, ALL_TERRAIN_KINDS, DEFAULT_TERRAIN_KIND};
use crate::text::{
    append_chars, append_str, chars_to_string, copy_range, decimal, push_decimal, str_to_chars,
    string_to_chars, trim, trim_chars,
};

verus! {

/// What clicks on the map edit.
#[derive(Clone, Copy, PartialEq, Eq, Debug, Structural)]
pub enum EditorMode {
    Terrain,
    Regions,
    Paths,
}

impl EditorMode {
    pub open spec fn label_spec(self) -> Seq<char> {
        match self {
            EditorMode::Terrain => "Terrain"@,
            EditorMode::Regions => "Regions"@,
            EditorMode::Paths => "Paths"@,
        }
    }

    pub open spec fn next_spec(self) -> EditorMode {
        match self {
            EditorMode::Terrain => EditorMode::Regions,
            EditorMode::Regions => EditorMode::Paths,
            EditorMode::Paths => EditorMode::Terrain,
        }
    }

    /// The name on the mode button.
    pub fn label(self) -> (r: &'static str)
        ensures
            r@ == self.label_spec(),
    {
        match self {
            EditorMode::Terrain => "Terrain",
            EditorMode::Regions => "Regions",
            EditorMode::Paths => "Paths",
        }
    }

    /// The mode the mode button switches to.
    pub fn next(self) -> (r: EditorMode)
        ensures
            r == self.next_spec(),
    {
        match self {
            EditorMode::Terrain => EditorMode::Regions,
            EditorMode::Regions => EditorMode::Paths,
            EditorMode::Paths => EditorMode::Terrain,
        }
    }
}

/// Switching modes three times comes back to the same mode, and never
/// earlier.
pub proof fn lemma_mode_cycle(m: EditorMode)
    ensures
        m.next_spec().next_spec().next_spec() == m,
        m.next_spec() != m,
        m.next_spec().next_spec() != m,
{
}

/// The editor's selection and typing state.
pub struct EditorSelection {
    pub mode: EditorMode,
    pub current_kind: TerrainKind,
    pub selected_region: Option<usize>,
    pub selected_path: Option<usize>,
    pub naming_region: bool,
    pub naming_path: bool,
    pub region_name_buffer: String,
    pub path_name_buffer: String,
}

impl EditorSelection {
    /// The state the editor opens in.
    pub fn new() -> (r: Self)
        ensures
            r.mode == EditorMode::Terrain,
            r.current_kind == DEFAULT_TERRAIN_KIND,
            r.selected_region is None,
            r.selected_path is None,
            !r.naming_region,
            !r.naming_path,
            r.region_name_buffer@ == Seq::<char>::empty(),
            r.path_name_buffer@ == Seq::<char>::empty(),
    {
        EditorSelection {
            mode: EditorMode::Terrain,
            current_kind: DEFAULT_TERRAIN_KIND,
            selected_region: None,
            selected_path: None,
            naming_region: false,
            naming_path: false,
            region_name_buffer: String::new(),
            path_name_buffer: String::new(),
        }
    }

    /// Switches to the next mode: typing is abandoned, and a selection
    /// survives only in its own mode.
    pub fn toggle_mode(&mut self)
        ensures
            final(self).mode == old(self).mode.next_spec(),
            final(self).current_kind == old(self).current_kind,
            !final(self).naming_region,
            !final(self).naming_path,
            final(self).region_name_buffer@ == Seq::<char>::empty(),
            final(self).path_name_buffer@ == Seq::<char>::empty(),
            final(self).selected_region == if final(self).mode == EditorMode::Regions {
                old(self).selected_region
            } else {
                None
            },
            final(self).selected_path == if final(self).mode == EditorMode::Paths {
                old(self).selected_path
            } else {
                None
            },
    {
        self.mode = self.mode.next();
        self.naming_region = false;
        self.naming_path = false;
        self.region_name_buffer = String::new();
        self.path_name_buffer = String::new();
        if self.mode != EditorMode::Regions {
            self.selected_region = None;
        }
        if self.mode != EditorMode::Paths {
            self.selected_path = None;
        }
    }

    /// Picks the palette entry `index` as the paint kind.
    pub fn select_palette_index(&mut self, index: usize)
        requires
            index < 8,
        ensures
            final(self).current_kind == ALL_TERRAIN_KINDS@[index as int],
            final(self).mode == old(self).mode,
    {
        self.current_kind = ALL_TERRAIN_KINDS[index];
    }
}

/// The first line of the editor's help text.
pub open spec fn editor_title(section: Seq<char>) -> Seq<char> {
    "Terrain Map Editor \u{2014} "@ + section
}

/// The help text while a name is typed.
pub open spec fn naming_text(section: Seq<char>, what: Seq<char>, buffer: Seq<char>) -> Seq<char> {
    editor_title(section) + "\nType "@ + what + " name: "@ + buffer + "_\nEnter: confirm  |  Esc: cancel"@
}

/// The key help of each mode, ending with the file that SAVE writes.
pub open spec fn mode_help(mode: EditorMode, file: Seq<char>) -> Seq<char> {
    match mode {
        EditorMode::Terrain => "WASD: pan  |  1-8 or click: pick tile  |  click/drag: paint  |  G: randomize  |  Tab: switch mode  |  SAVE: write "@
            + file,
        EditorMode::Regions => "WASD: pan  |  click list: select region  |  click map: toggle tile  |  Tab: switch mode  |  SAVE: write "@
            + file,
        EditorMode::Paths => "WASD: pan  |  click list: select path  |  click map: toggle tile  |  Tab: switch mode  |  SAVE: write "@
            + file,
    }
}

impl EditorSelection {
    /// The selection line of the current mode.
    pub open spec fn selection_info(
        self,
        regions: Seq<RegionDefinition>,
        paths: Seq<PathDefinition>,
    ) -> Seq<char> {
        match self.mode {
            EditorMode::Terrain => "Painting: "@ + self.current_kind.name_spec(),
            EditorMode::Regions => match self.selected_region {
                Some(i) => "Selected: "@ + regions[i as int].name@ + " ("@ + decimal(
                    regions[i as int].tiles@.len(),
                ) + " tiles)"@,
                None => "No region selected"@,
            },
            EditorMode::Paths => match self.selected_path {
                Some(i) => "Selected: "@ + paths[i as int].name@ + " (L"@ + decimal(
                    paths[i as int].level as nat,
                ) + ", "@ + decimal(paths[i as int].tiles@.len()) + " tiles, "@ + decimal(
                    paths[i as int].enemies@.len(),
                ) + " enemy groups)"@,
                None => "No path selected"@,
            },
        }
    }

    /// The editor's help text.
    pub open spec fn hud_spec(
        self,
        regions: Seq<RegionDefinition>,
        paths: Seq<PathDefinition>,
        file: Seq<char>,
    ) -> Seq<char> {
        if self.naming_region {
            naming_text("Regions"@, "region"@, self.region_name_buffer@)
        } else if self.naming_path {
            naming_text("Paths"@, "path"@, self.path_name_buffer@)
        } else {
            editor_title(self.mode.label_spec()) + "\n"@ + mode_help(self.mode, file) + "\n\n"@
                + self.selection_info(regions, paths)
        }
    }

    /// The help text shown over the editor: the name being typed, or the
    /// mode's keys and what is selected.
    pub fn hud_text(&self, regions: &[RegionDefinition], paths: &[PathDefinition], file: &str) -> (r:
        String)
        requires
            !self.naming_region && !self.naming_path && self.mode == EditorMode::Regions ==> (
            self.selected_region matches Some(i) ==> i < regions@.len()),
            !self.naming_region && !self.naming_path && self.mode == EditorMode::Paths ==> (
            self.selected_path matches Some(i) ==> i < paths@.len()),
        ensures
            r@ == self.hud_spec(regions@, paths@, file@),
    {
        let mut out: Vec<char> = Vec::new();
        if self.naming_region || self.naming_path {
            let (section, what, buffer) = if self.naming_region {
                ("Regions", "region", &self.region_name_buffer)
            } else {
                ("Paths", "path", &self.path_name_buffer)
            };
            append_str(&mut out, "Terrain Map Editor \u{2014} ");
            append_str(&mut out, section);
            append_str(&mut out, "\nType ");
            append_str(&mut out, what);
            append_str(&mut out, " name: ");
            let typed = string_to_chars(buffer);
            append_chars(&mut out, typed.as_slice());
            append_str(&mut out, "_\nEnter: confirm  |  Esc: cancel");
            proof {
                reveal_strlit("Terrain Map Editor \u{2014} ");
                reveal_strlit("Regions");
                reveal_strlit("region");
                reveal_strlit("Paths");
                reveal_strlit("path");
                reveal_strlit("\nType ");
                reveal_strlit(" name: ");
                reveal_strlit("_\nEnter: confirm  |  Esc: cancel");
                if self.naming_region {
                    assert(out@ =~= naming_text("Regions"@, "region"@, self.region_name_buffer@));
                } else {
                    assert(out@ =~= naming_text("Paths"@, "path"@, self.path_name_buffer@));
                }
            }
            return chars_to_string(out.as_slice());
        }
        append_str(&mut out, "Terrain Map Editor \u{2014} ");
        append_str(&mut out, self.mode.label());
        append_str(&mut out, "\n");
        let ghost head = out@;
        match self.mode {
            EditorMode::Terrain => append_str(
                &mut out,
                "WASD: pan  |  1-8 or click: pick tile  |  click/drag: paint  |  G: randomize  |  Tab: switch mode  |  SAVE: write ",
            ),
            EditorMode::Regions => append_str(
                &mut out,
                "WASD: pan  |  click list: select region  |  click map: toggle tile  |  Tab: switch mode  |  SAVE: write ",
            ),
            EditorMode::Paths => append_str(
                &mut out,
                "WASD: pan  |  click list: select path  |  click map: toggle tile  |  Tab: switch mode  |  SAVE: write ",
            ),
        }
        append_str(&mut out, file);
        let ghost help = out@;
        append_str(&mut out, "\n\n");
        let ghost before_info = out@;
        match self.mode {
            EditorMode::Terrain => {
                append_str(&mut out, "Painting: ");
                append_str(&mut out, self.current_kind.name());
            },
            EditorMode::Regions => match self.selected_region {
                Some(i) => {
                    append_str(&mut out, "Selected: ");
                    let name = string_to_chars(&regions[i].name);
                    append_chars(&mut out, name.as_slice());
                    append_str(&mut out, " (");
                    push_decimal(&mut out, regions[i].tiles.len() as u64);
                    append_str(&mut out, " tiles)");
                },
                None => append_str(&mut out, "No region selected"),
            },
            EditorMode::Paths => match self.selected_path {
                Some(i) => {
                    append_str(&mut out, "Selected: ");
                    let name = string_to_chars(&paths[i].name);
                    append_chars(&mut out, name.as_slice());
                    append_str(&mut out, " (L");
                    push_decimal(&mut out, paths[i].level as u64);
                    append_str(&mut out, ", ");
                    push_decimal(&mut out, paths[i].tiles.len() as u64);
                    append_str(&mut out, " tiles, ");
                    push_decimal(&mut out, paths[i].enemies.len() as u64);
                    append_str(&mut out, " enemy groups)");
                },
                None => append_str(&mut out, "No path selected"),
            },
        }
        proof {
            reveal_strlit("Terrain Map Editor \u{2014} ");
            reveal_strlit("\n");
            reveal_strlit("\n\n");
            reveal_strlit("Painting: ");
            reveal_strlit("Selected: ");
            reveal_strlit(" (");
            reveal_strlit(" tiles)");
            reveal_strlit(" (L");
            reveal_strlit(", ");
            reveal_strlit(" tiles, ");
            reveal_strlit(" enemy groups)");
            reveal_strlit("No region selected");
            reveal_strlit("No path selected");
            assert(help =~= head + mode_help(self.mode, file@));
            assert(out@.subrange(0, before_info.len() as int) =~= before_info);
            assert(out@ =~= before_info + self.selection_info(regions@, paths@));
            assert(out@ =~= self.hud_spec(regions@, paths@, file@));
        }
        chars_to_string(out.as_slice())
    }
}

/// Clicking entry `index` of a list: it becomes selected, or is unselected
/// when it already was.
pub fn toggle_selection(selected: Option<usize>, index: usize) -> (r: Option<usize>)
    ensures
        r == if selected == Some(index) {
            None
        } else {
            Some(index)
        },
{
    match selected {
        Some(s) => if s == index {
            None
        } else {
            Some(index)
        },
        None => Some(index),
    }
}

/// Index of the first `c` in `tiles` (`tiles.len()` when none).
pub open spec fn tile_position(tiles: Seq<Axial>, c: Axial, i: int) -> int
    decreases tiles.len() - i,
{
    if i < 0 || i >= tiles.len() {
        tiles.len() as int
    } else if tiles[i] == c {
        i
    } else {
        tile_position(tiles, c, i + 1)
    }
}

/// The tile list after clicking `c`: its first occurrence removed, or `c`
/// appended when absent.
pub open spec fn toggled(tiles: Seq<Axial>, c: Axial) -> Seq<Axial> {
    let p = tile_position(tiles, c, 0);
    if p < tiles.len() {
        tiles.remove(p)
    } else {
        tiles.push(c)
    }
}

proof fn lemma_tile_position(tiles: Seq<Axial>, c: Axial, i: int)
    requires
        0 <= i <= tiles.len(),
    ensures
        i <= tile_position(tiles, c, i) <= tiles.len(),
        tile_position(tiles, c, i) < tiles.len() ==> tiles[tile_position(tiles, c, i)] == c,
        forall|j: int| i <= j < tile_position(tiles, c, i) ==> tiles[j] != c,
    decreases tiles.len() - i,
{
    if i < tiles.len() && tiles[i] != c {
        lemma_tile_position(tiles, c, i + 1);
    }
}

/// Adds `coord` to a region's or path's tiles, or removes it when present.
pub fn toggle_tile(tiles: &mut Vec<Axial>, coord: Axial)
    ensures
        final(tiles)@ == toggled(old(tiles)@, coord),
{
    let mut i: usize = 0;
    while i < tiles.len()
        invariant
            i <= tiles@.len(),
            tiles@ == old(tiles)@,
            tile_position(tiles@, coord, 0) == tile_position(tiles@, coord, i as int),
        decreases tiles@.len() - i,
    {
        if same_hex(tiles[i], coord) {
            tiles.remove(i);
            return;
        }
        i = i + 1;
    }
    tiles.push(coord);
}

/// On a list without repeats, a click flips whether the tile is in it and
/// keeps the list free of repeats; a second click on a tile that was absent
/// gives the list back.
pub proof fn lemma_toggle(tiles: Seq<Axial>, c: Axial)
    requires
        tiles.no_duplicates(),
    ensures
        toggled(tiles, c).no_duplicates(),
        toggled(tiles, c).contains(c) == !tiles.contains(c),
        forall|x: Axial| x != c ==> (#[trigger] toggled(tiles, c).contains(x) == tiles.contains(x)),
        !tiles.contains(c) ==> toggled(toggled(tiles, c), c) == tiles,
{
    lemma_tile_position(tiles, c, 0);
    let p = tile_position(tiles, c, 0);
    let t = toggled(tiles, c);
    if p < tiles.len() {
        assert forall|a: int, b: int| 0 <= a < b < t.len() implies t[a] != t[b] by {
            let sa = if a < p { a } else { a + 1 };
            let sb = if b < p { b } else { b + 1 };
            assert(t[a] == tiles[sa]);
            assert(t[b] == tiles[sb]);
        }
        assert(tiles.contains(c));
        if t.contains(c) {
            let k = choose|k: int| 0 <= k < t.len() && t[k] == c;
            let sk = if k < p { k } else { k + 1 };
            assert(tiles[sk] == c);
        }
        assert forall|x: Axial| x != c implies (#[trigger] t.contains(x) == tiles.contains(x)) by {
            if t.contains(x) {
                let k = choose|k: int| 0 <= k < t.len() && t[k] == x;
                let sk = if k < p { k } else { k + 1 };
                assert(tiles[sk] == x);
            }
            if tiles.contains(x) {
                let k = choose|k: int| 0 <= k < tiles.len() && tiles[k] == x;
                assert(k != p);
                if k < p {
                    assert(t[k] == x);
                } else {
                    assert(t[k - 1] == x);
                }
            }
        }
    } else {
        assert(!tiles.contains(c));
        assert(t[tiles.len() as int] == c);
        assert forall|x: Axial| x != c implies (#[trigger] t.contains(x) == tiles.contains(x)) by {
            if t.contains(x) {
                let k = choose|k: int| 0 <= k < t.len() && t[k] == x;
                assert(tiles[k] == x);
            }
            if tiles.contains(x) {
                let k = choose|k: int| 0 <= k < tiles.len() && tiles[k] == x;
                assert(t[k] == x);
            }
        }
        lemma_tile_position(t, c, 0);
        let q = tile_position(t, c, 0);
        assert(q == tiles.len());
        assert(toggled(t, c) =~= tiles);
    }
}

/// The tiles whose kind is not the default, in the same order.
pub open spec fn sparse_upto(kinds: Seq<(Axial, TerrainKind)>, n: int) -> Seq<(Axial, TerrainKind)>
    decreases n,
{
    if n <= 0 {
        Seq::empty()
    } else {
        sparse_upto(kinds, n - 1) + if kinds[n - 1].1 != DEFAULT_TERRAIN_KIND {
            seq![kinds[n - 1]]
        } else {
            Seq::empty()
        }
    }
}

/// What the map file needs to store: the tiles that are not plains.
pub fn sparse_overrides(kinds: &[(Axial, TerrainKind)]) -> (r: Vec<(Axial, TerrainKind)>)
    ensures
        r@ == sparse_upto(kinds@, kinds@.len() as int),
{
    let mut r: Vec<(Axial, TerrainKind)> = Vec::new();
    let mut i: usize = 0;
    while i < kinds.len()
        invariant
            i <= kinds@.len(),
            r@ == sparse_upto(kinds@, i as int),
        decreases kinds@.len() - i,
    {
        if kinds[i].1 != DEFAULT_TERRAIN_KIND {
            r.push(kinds[i]);
        } else {
            assert(r@ + Seq::<(Axial, TerrainKind)>::empty() =~= r@);
        }
        i = i + 1;
    }
    r
}

/// Paints `coord` with `kind` when the tile is on the map and has another
/// kind; the kind it had is returned, so that its layer can be redrawn.
pub fn paint_tile(kinds: &mut Vec<(Axial, TerrainKind)>, coord: Axial, kind: TerrainKind) -> (r: Option<TerrainKind>)
    ensures
        match tile_get(old(kinds)@, coord) {
            Some(old_kind) => if old_kind != kind {
                r == Some(old_kind) && final(kinds)@ == tile_set(old(kinds)@, coord, kind)
            } else {
                r is None && final(kinds)@ == old(kinds)@
            },
            None => r is None && final(kinds)@ == old(kinds)@,
        },
{
    match tile_lookup(kinds, coord) {
        Some(old_kind) => {
            if old_kind != kind {
                tile_insert(kinds, coord, kind);
                Some(old_kind)
            } else {
                None
            }
        },
        None => None,
    }
}

/// A key pressed while a name is being typed.
#[derive(PartialEq, Eq, Debug)]
pub enum NameKey {
    Character(String),
    Space,
    Backspace,
    Escape,
    Enter,
    Other,
}

/// What the key did to the name being typed.
#[derive(PartialEq, Eq, Debug)]
pub enum NameInput {
    /// Still typing.
    Typing,
    /// Typing abandoned.
    Cancelled,
    /// Typing finished; the trimmed name, unless it is empty.
    Confirmed(Option<String>),
}

/// The buffer after a key: typed text appended, a space, the last
/// character removed, or (on Escape or Enter) cleared.
pub open spec fn buffer_after(buffer: Seq<char>, key: NameKey) -> Seq<char> {
    match key {
        NameKey::Character(s) => buffer + s@,
        NameKey::Space => buffer.push(' '),
        NameKey::Backspace => if buffer.len() > 0 {
            buffer.drop_last()
        } else {
            buffer
        },
        NameKey::Escape => Seq::empty(),
        NameKey::Enter => Seq::empty(),
        NameKey::Other => buffer,
    }
}

/// Applies a key to the name being typed in `buffer`.
pub fn apply_name_key(buffer: &mut String, key: &NameKey) -> (r: NameInput)
    ensures
        final(buffer)@ == buffer_after(old(buffer)@, *key),
        match *key {
            NameKey::Escape => r == NameInput::Cancelled,
            NameKey::Enter => match r {
                NameInput::Confirmed(Some(name)) => trim(old(buffer)@).len() > 0 && name@ == trim(
                    old(buffer)@,
                ),
                NameInput::Confirmed(None) => trim(old(buffer)@).len() == 0,
                _ => false,
            },
            _ => r == NameInput::Typing,
        },
{
    let chars = str_to_chars(buffer.as_str());
    match key {
        NameKey::Character(s) => {
            let mut all = chars;
            let extra = str_to_chars(s.as_str());
            let mut i: usize = 0;
            let ghost start = all@;
            while i < extra.len()
                invariant
                    i <= extra@.len(),
                    all@ == start + extra@.take(i as int),
                decreases extra@.len() - i,
            {
                all.push(extra[i]);
                assert(extra@.take(i as int).push(extra@[i as int]) =~= extra@.take(i + 1));
                assert(start + extra@.take(i as int).push(extra@[i as int]) =~= (start
                    + extra@.take(i as int)).push(extra@[i as int]));
                i = i + 1;
            }
            assert(extra@.take(extra@.len() as int) =~= extra@);
            *buffer = chars_to_string(all.as_slice());
            NameInput::Typing
        },
        NameKey::Space => {
            let mut all = chars;
            all.push(' ');
            *buffer = chars_to_string(all.as_slice());
            NameInput::Typing
        },
        NameKey::Backspace => {
            if chars.len() > 0 {
                let kept = copy_range(chars.as_slice(), 0, chars.len() - 1);
                assert(kept@ =~= chars@.drop_last());
                *buffer = chars_to_string(kept.as_slice());
            }
            NameInput::Typing
        },
        NameKey::Escape => {
            *buffer = String::new();
            NameInput::Cancelled
        },
        NameKey::Enter => {
            let name = trim_chars(chars.as_slice());
            *buffer = String::new();
            if name.len() > 0 {
                NameInput::Confirmed(Some(chars_to_string(name.as_slice())))
            } else {
                NameInput::Confirmed(None)
            }
        },
        NameKey::Other => NameInput::Typing,
    }
}

/// A new region with the given name and no tiles.
pub fn new_region(name: String) -> (r: RegionDefinition)
    ensures
        r.name@ == name@,
        r.tiles@ == Seq::<Axial>::empty(),
{
    RegionDefinition { name, tiles: Vec::new() }
}

/// A new path with the given name, numbered after the `count` existing
/// ones, with nothing in it yet.
pub fn new_path(count: usize, name: String) -> (r: PathDefinition)
    ensures
        r.id == PathId(count),
        r.name@ == name@,
        r.tiles@ == Seq::<Axial>::empty(),
        r.enemies@.len() == 0,
        r.level == 0,
        r.unlocks@.len() == 0,
        r.excludes@.len() == 0,
{
    PathDefinition {
        id: PathId(count),
        name,
        tiles: Vec::new(),
        enemies: Vec::new(),
        level: 0,
        unlocks: Vec::new(),
        excludes: Vec::new(),
    }
}

impl EditorSelection {
    /// A key typed while a region is being named. Escape ends the naming;
    /// Enter ends it too and, when the trimmed name is not empty, adds a new
    /// region of that name with no tiles and selects it. Any other key edits
    /// the name being typed.
    pub fn region_name_key(&mut self, regions: &mut Vec<RegionDefinition>, key: &NameKey)
        requires
            old(self).naming_region,
        ensures
            final(self).region_name_buffer@ == buffer_after(old(self).region_name_buffer@, *key),
            final(self).mode == old(self).mode,
            final(self).current_kind == old(self).current_kind,
            final(self).selected_path == old(self).selected_path,
            final(self).naming_path == old(self).naming_path,
            final(self).path_name_buffer@ == old(self).path_name_buffer@,
            final(self).naming_region == !(*key is Escape || *key is Enter),
            (*key is Enter && trim(old(self).region_name_buffer@).len() > 0) ==> {
                &&& final(regions)@.len() == old(regions)@.len() + 1
                &&& final(regions)@.subrange(0, old(regions)@.len() as int) == old(regions)@
                &&& final(regions)@[old(regions)@.len() as int].name@ == trim(
                    old(self).region_name_buffer@,
                )
                &&& final(regions)@[old(regions)@.len() as int].tiles@.len() == 0
                &&& final(self).selected_region == Some(old(regions)@.len() as usize)
            },
            !(*key is Enter && trim(old(self).region_name_buffer@).len() > 0) ==> {
                &&& final(regions)@ == old(regions)@
                &&& final(self).selected_region == old(self).selected_region
            },
    {
        let result = apply_name_key(&mut self.region_name_buffer, key);
        match result {
            NameInput::Typing => {},
            NameInput::Cancelled => {
                self.naming_region = false;
            },
            NameInput::Confirmed(name) => {
                match name {
                    Some(name) => {
                        let index = regions.len();
                        regions.push(new_region(name));
                        self.selected_region = Some(index);
                        assert(regions@.subrange(0, index as int) =~= old(regions)@);
                    },
                    None => {},
                }
                self.naming_region = false;
            },
        }
    }

    /// A key typed while a path is being named. Escape ends the naming;
    /// Enter ends it too and, when the trimmed name is not empty, adds a new
    /// empty path of that name, numbered after the existing ones, and
    /// selects it. Any other key edits the name being typed.
    pub fn path_name_key(&mut self, paths: &mut Vec<PathDefinition>, key: &NameKey)
        requires
            old(self).naming_path,
        ensures
            final(self).path_name_buffer@ == buffer_after(old(self).path_name_buffer@, *key),
            final(self).mode == old(self).mode,
            final(self).current_kind == old(self).current_kind,
            final(self).selected_region == old(self).selected_region,
            final(self).naming_region == old(self).naming_region,
            final(self).region_name_buffer@ == old(self).region_name_buffer@,
            final(self).naming_path == !(*key is Escape || *key is Enter),
            (*key is Enter && trim(old(self).path_name_buffer@).len() > 0) ==> {
                let p = final(paths)@[old(paths)@.len() as int];
                &&& final(paths)@.len() == old(paths)@.len() + 1
                &&& final(paths)@.subrange(0, old(paths)@.len() as int) == old(paths)@
                &&& p.id == PathId(old(paths)@.len() as usize)
                &&& p.name@ == trim(old(self).path_name_buffer@)
                &&& p.tiles@.len() == 0
                &&& p.enemies@.len() == 0
                &&& p.level == 0
                &&& p.unlocks@.len() == 0
                &&& p.excludes@.len() == 0
                &&& final(self).selected_path == Some(old(paths)@.len() as usize)
            },
            !(*key is Enter && trim(old(self).path_name_buffer@).len() > 0) ==> {
                &&& final(paths)@ == old(paths)@
                &&& final(self).selected_path == old(self).selected_path
            },
    {
        let result = apply_name_key(&mut self.path_name_buffer, key);
        match result {
            NameInput::Typing => {},
            NameInput::Cancelled => {
                self.naming_path = false;
            },
            NameInput::Confirmed(name) => {
                match name {
                    Some(name) => {
                        let index = paths.len();
                        paths.push(new_path(index, name));
                        self.selected_path = Some(index);
                        assert(paths@.subrange(0, index as int) =~= old(paths)@);
                    },
                    None => {},
                }
                self.naming_path = false;
            },
        }
    }
}

/// The kind of a tile: the one the map file gives, or the default.
pub open spec fn kind_of(overrides: Seq<(Axial, TerrainKind)>, c: Axial) -> TerrainKind {
    match tile_get(overrides, c) {
        Some(k) => k,
        None => DEFAULT_TERRAIN_KIND,
    }
}

/// The kind of every cell of the map, in the order of the cells.
pub fn kinds_for_cells(cells: &[Axial], overrides: &Vec<(Axial, TerrainKind)>) -> (r: Vec<(Axial, TerrainKind)>)
    ensures
        r@.len() == cells@.len(),
        forall|i: int| 0 <= i < cells@.len() ==> #[trigger] r@[i] == (cells@[i], kind_of(overrides@, cells@[i])),
{
    let mut r: Vec<(Axial, TerrainKind)> = Vec::new();
    let mut i: usize = 0;
    while i < cells.len()
        invariant
            i <= cells@.len(),
            r@.len() == i,
            forall|k: int| 0 <= k < i ==> #[trigger] r@[k] == (cells@[k], kind_of(overrides@, cells@[k])),
        decreases cells@.len() - i,
    {
        let c = cells[i];
        let kind = match tile_lookup(overrides, c) {
            Some(k) => k,
            None => DEFAULT_TERRAIN_KIND,
        };
        r.push((c, kind));
        i = i + 1;
    }
    r
}

} // verus!
