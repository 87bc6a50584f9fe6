use vstd::prelude::*;

use crate::components::EnemyKind;
use crate::hex::{lemma_tile_set_unique, tile_insert, tile_set, tiles_unique, Axial};
use crate::paths::{
    group_view, path_view, paths_view, strings_view, GroupView, PathDefinition, PathEnemyGroup,
    PathId, PathView,
};
use crate::regions::{region_view, regions_view, RegionDefinition, RegionView};
use crate::terrain::TerrainKind;
use crate::text::{
    append_str, chars_eq, chars_to_string, decimal, float_literal_ok, is_float_literal, parse_i32,
    parse_i32_spec, parse_u32, parse_u32_spec, parse_u8, parse_u8_spec, push_decimal,
    push_signed_decimal, signed_decimal, split_char, split_on, split_once, split_once_char,
    split_whitespace, split_ws, str_to_chars, trim, trim_chars, views,
};

verus! {

/// What a map file holds: the terrain of the tiles that are not plains,
/// the regions and the paths.
pub struct TerrainFileData {
    /// `(tile, kind)`, each tile at most once.
    pub overrides: Vec<(Axial, TerrainKind)>,
    pub regions: Vec<RegionDefinition>,
    pub paths: Vec<PathDefinition>,
}

/// The part of the file a line belongs to.
#[derive(Clone, Copy, PartialEq, Eq, Debug, Structural)]
pub enum Section {
    Tiles,
    Regions,
    Paths,
}

/// The reader's state after some lines of a map file.
pub struct FileState {
    pub section: Section,
    pub overrides: Seq<(Axial, TerrainKind)>,
    pub regions: Seq<RegionView>,
    pub paths: Seq<PathView>,
}

/// The file key of an enemy kind.
pub open spec fn enemy_key_spec(kind: EnemyKind) -> Seq<char> {
    match kind {
        EnemyKind::Grunt => "Grunt"@,
        EnemyKind::Runner => "Runner"@,
        EnemyKind::Brute => "Brute"@,
        EnemyKind::Armored => "Armored"@,
        EnemyKind::Titan => "Titan"@,
    }
}

/// The enemy kind whose key is exactly `s`.
pub open spec fn enemy_kind_from_key(s: Seq<char>) -> Option<EnemyKind> {
    if s == "Grunt"@ {
        Some(EnemyKind::Grunt)
    } else if s == "Runner"@ {
        Some(EnemyKind::Runner)
    } else if s == "Brute"@ {
        Some(EnemyKind::Brute)
    } else if s == "Armored"@ {
        Some(EnemyKind::Armored)
    } else if s == "Titan"@ {
        Some(EnemyKind::Titan)
    } else {
        None
    }
}

/// The word that stands for an enemy kind in the map file.
pub fn enemy_kind_key(kind: EnemyKind) -> (r: &'static str)
    ensures
        r@ == enemy_key_spec(kind),
{
    match kind {
        EnemyKind::Grunt => "Grunt",
        EnemyKind::Runner => "Runner",
        EnemyKind::Brute => "Brute",
        EnemyKind::Armored => "Armored",
        EnemyKind::Titan => "Titan",
    }
}

fn enemy_kind_from_chars(s: &[char]) -> (r: Option<EnemyKind>)
    ensures
        r == enemy_kind_from_key(s@),
{
    if chars_eq(s, str_to_chars("Grunt").as_slice()) {
        Some(EnemyKind::Grunt)
    } else if chars_eq(s, str_to_chars("Runner").as_slice()) {
        Some(EnemyKind::Runner)
    } else if chars_eq(s, str_to_chars("Brute").as_slice()) {
        Some(EnemyKind::Brute)
    } else if chars_eq(s, str_to_chars("Armored").as_slice()) {
        Some(EnemyKind::Armored)
    } else if chars_eq(s, str_to_chars("Titan").as_slice()) {
        Some(EnemyKind::Titan)
    } else {
        None
    }
}

/// `Kind:count:cooldown` (further `:` pieces are ignored): a known kind, a
/// `u32` count and a cooldown that reads as an `f32`.
pub open spec fn parse_group_spec(s: Seq<char>) -> Option<GroupView> {
    let parts = split_on(s, ':');
    if parts.len() < 3 {
        None
    } else {
        match (enemy_kind_from_key(parts[0]), parse_u32_spec(parts[1])) {
            (Some(kind), Some(count)) => if is_float_literal(parts[2]) {
                Some(GroupView { kind, count, cooldown: parts[2] })
            } else {
                None
            },
            _ => None,
        }
    }
}

fn parse_group_chars(s: &[char]) -> (r: Option<PathEnemyGroup>)
    ensures
        match (r, parse_group_spec(s@)) {
            (Some(g), Some(v)) => group_view(g) == v,
            (None, None) => true,
            _ => false,
        },
{
    let parts = split_char(s, ':');
    proof {
        assert(views(parts@).len() == parts@.len());
    }
    if parts.len() < 3 {
        return None;
    }
    proof {
        assert(views(parts@)[0] == parts@[0]@);
        assert(views(parts@)[1] == parts@[1]@);
        assert(views(parts@)[2] == parts@[2]@);
    }
    let kind = match enemy_kind_from_chars(parts[0].as_slice()) {
        Some(k) => k,
        None => return None,
    };
    let count = match parse_u32(parts[1].as_slice()) {
        Some(c) => c,
        None => return None,
    };
    if !float_literal_ok(parts[2].as_slice()) {
        return None;
    }
    Some(PathEnemyGroup { kind, count, cooldown: chars_to_string(parts[2].as_slice()) })
}

/// Reads an enemy group written `Kind:count:cooldown`.
pub fn parse_enemy_group(s: &str) -> (r: Option<PathEnemyGroup>)
    ensures
        match (r, parse_group_spec(s@)) {
            (Some(g), Some(v)) => group_view(g) == v,
            (None, None) => true,
            _ => false,
        },
{
    let cs = str_to_chars(s);
    parse_group_chars(cs.as_slice())
}

/// A coordinate written `q,r`.
pub open spec fn parse_coord_spec(tok: Seq<char>) -> Option<Axial> {
    match split_once(tok, ',') {
        Some((a, b)) => match (parse_i32_spec(a), parse_i32_spec(b)) {
            (Some(q), Some(r)) => Some((q, r)),
            _ => None,
        },
        None => None,
    }
}

/// All of `toks[..n]` read as coordinates, or `None` if one is not.
pub open spec fn parse_coords_upto(toks: Seq<Seq<char>>, n: int) -> Option<Seq<Axial>>
    decreases n,
{
    if n <= 0 {
        Some(Seq::empty())
    } else {
        match (parse_coords_upto(toks, n - 1), parse_coord_spec(toks[n - 1])) {
            (Some(s), Some(c)) => Some(s.push(c)),
            _ => None,
        }
    }
}

pub open spec fn parse_coords_spec(toks: Seq<Seq<char>>) -> Option<Seq<Axial>> {
    parse_coords_upto(toks, toks.len() as int)
}

fn parse_coord_chars(tok: &[char]) -> (r: Option<Axial>)
    ensures
        r == parse_coord_spec(tok@),
{
    match split_once_char(tok, ',') {
        Some((a, b)) => match (parse_i32(a.as_slice()), parse_i32(b.as_slice())) {
            (Some(q), Some(r)) => Some((q, r)),
            _ => None,
        },
        None => None,
    }
}

/// The whitespace-separated coordinates of `s`.
fn parse_coords_chars(s: &[char]) -> (r: Option<Vec<Axial>>)
    ensures
        match (r, parse_coords_spec(split_ws(s@))) {
            (Some(v), Some(w)) => v@ == w,
            (None, None) => true,
            _ => false,
        },
{
    let toks = split_whitespace(s);
    let ghost tv = views(toks@);
    let mut tiles: Vec<Axial> = Vec::new();
    let mut i: usize = 0;
    while i < toks.len()
        invariant
            i <= toks@.len(),
            tv == views(toks@),
            tv == split_ws(s@),
            parse_coords_upto(tv, i as int) == Some(tiles@),
        decreases toks@.len() - i,
    {
        assert(tv[i as int] == toks@[i as int]@);
        match parse_coord_chars(toks[i].as_slice()) {
            Some(c) => tiles.push(c),
            None => {
                proof {
                    lemma_coords_fail_stays(tv, i as int + 1, tv.len() as int);
                }
                return None;
            },
        }
        i = i + 1;
    }
    Some(tiles)
}

proof fn lemma_coords_fail_stays(toks: Seq<Seq<char>>, a: int, b: int)
    requires
        1 <= a <= b,
        parse_coords_upto(toks, a) is None,
    ensures
        parse_coords_upto(toks, b) is None,
    decreases b - a,
{
    if a < b {
        lemma_coords_fail_stays(toks, a, b - 1);
    }
}

/// A line of the tiles section: `q r Kind` (further words are ignored).
pub open spec fn parse_tile_line_spec(line: Seq<char>) -> Option<(Axial, TerrainKind)> {
    let toks = split_ws(line);
    if toks.len() < 3 {
        None
    } else {
        match (
            parse_i32_spec(toks[0]),
            parse_i32_spec(toks[1]),
            TerrainKind::from_key_spec(toks[2]),
        ) {
            (Some(q), Some(r), Some(k)) => Some(((q, r), k)),
            _ => None,
        }
    }
}

fn parse_tile_line(line: &[char]) -> (r: Option<(Axial, TerrainKind)>)
    ensures
        r == parse_tile_line_spec(line@),
{
    let toks = split_whitespace(line);
    proof {
        assert(views(toks@).len() == toks@.len());
    }
    if toks.len() < 3 {
        return None;
    }
    proof {
        assert(views(toks@)[0] == toks@[0]@);
        assert(views(toks@)[1] == toks@[1]@);
        assert(views(toks@)[2] == toks@[2]@);
    }
    match (
        parse_i32(toks[0].as_slice()),
        parse_i32(toks[1].as_slice()),
        TerrainKind::from_key_chars(toks[2].as_slice()),
    ) {
        (Some(q), Some(r), Some(k)) => Some(((q, r), k)),
        _ => None,
    }
}

/// A line of the regions section: `name: q,r q,r ...` with at least one
/// coordinate.
pub open spec fn parse_region_spec(line: Seq<char>) -> Option<RegionView> {
    match split_once(line, ':') {
        Some((name, rest)) => match parse_coords_spec(split_ws(rest)) {
            Some(tiles) => if tiles.len() > 0 {
                Some(RegionView { name: trim(name), tiles })
            } else {
                None
            },
            None => None,
        },
        None => None,
    }
}

fn parse_region_chars(line: &[char]) -> (r: Option<RegionDefinition>)
    ensures
        match (r, parse_region_spec(line@)) {
            (Some(d), Some(v)) => region_view(d) == v,
            (None, None) => true,
            _ => false,
        },
{
    match split_once_char(line, ':') {
        Some((name, rest)) => match parse_coords_chars(rest.as_slice()) {
            Some(tiles) => {
                if tiles.len() > 0 {
                    let n = trim_chars(name.as_slice());
                    Some(RegionDefinition { name: chars_to_string(n.as_slice()), tiles })
                } else {
                    None
                }
            },
            None => None,
        },
        None => None,
    }
}

/// Reads a line of the regions section.
pub fn parse_region_line(line: &str) -> (r: Option<RegionDefinition>)
    ensures
        match (r, parse_region_spec(line@)) {
            (Some(d), Some(v)) => region_view(d) == v,
            (None, None) => true,
            _ => false,
        },
{
    let cs = str_to_chars(line);
    parse_region_chars(cs.as_slice())
}

/// The non-empty trimmed pieces among `pieces[..n]`.
pub open spec fn kept_names(pieces: Seq<Seq<char>>, n: int) -> Seq<Seq<char>>
    decreases n,
{
    if n <= 0 {
        Seq::empty()
    } else {
        kept_names(pieces, n - 1) + if trim(pieces[n - 1]).len() > 0 {
            seq![trim(pieces[n - 1])]
        } else {
            Seq::empty()
        }
    }
}

/// A comma-separated list of names: each trimmed, empty ones dropped.
pub open spec fn name_list(s: Seq<char>) -> Seq<Seq<char>> {
    let pieces = split_on(trim(s), ',');
    kept_names(pieces, pieces.len() as int)
}

fn parse_name_list(s: &[char]) -> (r: Vec<String>)
    ensures
        strings_view(r@) == name_list(s@),
{
    let t = trim_chars(s);
    let pieces = split_char(t.as_slice(), ',');
    let ghost pv = views(pieces@);
    let mut r: Vec<String> = Vec::new();
    let mut i: usize = 0;
    while i < pieces.len()
        invariant
            i <= pieces@.len(),
            pv == views(pieces@),
            pv == split_on(trim(s@), ','),
            strings_view(r@) == kept_names(pv, i as int),
        decreases pieces@.len() - i,
    {
        let n = trim_chars(pieces[i].as_slice());
        assert(pv[i as int] == pieces@[i as int]@);
        if n.len() > 0 {
            let name = chars_to_string(n.as_slice());
            let ghost before = r@;
            r.push(name);
            assert(strings_view(r@) =~= strings_view(before).push(name@));
            assert(kept_names(pv, i + 1) =~= kept_names(pv, i as int).push(trim(pv[i as int])));
        } else {
            assert(kept_names(pv, i + 1) =~= kept_names(pv, i as int));
        }
        i = i + 1;
    }
    r
}

/// The groups among `toks[..n]` that read as enemy groups (the others are
/// skipped).
pub open spec fn groups_upto(toks: Seq<Seq<char>>, n: int) -> Seq<GroupView>
    decreases n,
{
    if n <= 0 {
        Seq::empty()
    } else {
        groups_upto(toks, n - 1) + match parse_group_spec(toks[n - 1]) {
            Some(g) => seq![g],
            None => Seq::empty(),
        }
    }
}

fn parse_groups(s: &[char]) -> (r: Vec<PathEnemyGroup>)
    ensures
        r@.map_values(|g: PathEnemyGroup| group_view(g)) == groups_upto(
            split_ws(s@),
            split_ws(s@).len() as int,
        ),
{
    let toks = split_whitespace(s);
    let ghost tv = views(toks@);
    let mut r: Vec<PathEnemyGroup> = Vec::new();
    let mut i: usize = 0;
    while i < toks.len()
        invariant
            i <= toks@.len(),
            tv == views(toks@),
            tv == split_ws(s@),
            r@.map_values(|g: PathEnemyGroup| group_view(g)) == groups_upto(tv, i as int),
        decreases toks@.len() - i,
    {
        assert(tv[i as int] == toks@[i as int]@);
        match parse_group_chars(toks[i].as_slice()) {
            Some(g) => {
                let ghost before = r@;
                r.push(g);
                assert(r@.map_values(|g: PathEnemyGroup| group_view(g)) =~= before.map_values(
                    |g: PathEnemyGroup| group_view(g),
                ).push(group_view(g)));
            },
            None => {
                assert(groups_upto(tv, i + 1) =~= groups_upto(tv, i as int));
            },
        }
        i = i + 1;
    }
    r
}

/// A line of the paths section:
/// `name | q,r q,r ... | groups | level | unlocks | excludes`, the last two
/// optional. A tile that does not read rejects the line; a group that does
/// not read is skipped; a level that does not read is 0.
pub open spec fn parse_path_spec(line: Seq<char>, id: PathId) -> Option<PathView> {
    let parts = split_on(line, '|');
    if parts.len() < 4 {
        None
    } else {
        match parse_coords_spec(split_ws(trim(parts[1]))) {
            Some(tiles) => Some(
                PathView {
                    id,
                    name: trim(parts[0]),
                    tiles,
                    enemies: groups_upto(
                        split_ws(trim(parts[2])),
                        split_ws(trim(parts[2])).len() as int,
                    ),
                    level: match parse_u8_spec(trim(parts[3])) {
                        Some(l) => l,
                        None => 0,
                    },
                    unlocks: if parts.len() > 4 {
                        name_list(parts[4])
                    } else {
                        Seq::empty()
                    },
                    excludes: if parts.len() > 5 {
                        name_list(parts[5])
                    } else {
                        Seq::empty()
                    },
                },
            ),
            None => None,
        }
    }
}

fn parse_path_chars(line: &[char], id: PathId) -> (r: Option<PathDefinition>)
    ensures
        match (r, parse_path_spec(line@, id)) {
            (Some(d), Some(v)) => path_view(d) == v,
            (None, None) => true,
            _ => false,
        },
{
    let parts = split_char(line, '|');
    let ghost pv = views(parts@);
    proof {
        assert(pv.len() == parts@.len());
    }
    if parts.len() < 4 {
        return None;
    }
    proof {
        assert(pv[0] == parts@[0]@);
        assert(pv[1] == parts@[1]@);
        assert(pv[2] == parts@[2]@);
        assert(pv[3] == parts@[3]@);
    }
    let tile_text = trim_chars(parts[1].as_slice());
    let tiles = match parse_coords_chars(tile_text.as_slice()) {
        Some(t) => t,
        None => return None,
    };
    let name = trim_chars(parts[0].as_slice());
    let group_text = trim_chars(parts[2].as_slice());
    let enemies = parse_groups(group_text.as_slice());
    let level_text = trim_chars(parts[3].as_slice());
    let level = match parse_u8(level_text.as_slice()) {
        Some(l) => l,
        None => 0,
    };
    let unlocks = if parts.len() > 4 {
        proof {
            assert(pv[4] == parts@[4]@);
        }
        parse_name_list(parts[4].as_slice())
    } else {
        Vec::new()
    };
    let excludes = if parts.len() > 5 {
        proof {
            assert(pv[5] == parts@[5]@);
        }
        parse_name_list(parts[5].as_slice())
    } else {
        Vec::new()
    };
    let d = PathDefinition {
        id,
        name: chars_to_string(name.as_slice()),
        tiles,
        enemies,
        level,
        unlocks,
        excludes,
    };
    proof {
        assert(strings_view(Seq::<String>::empty()) =~= Seq::<Seq<char>>::empty());
        assert(path_view(d) =~= parse_path_spec(line@, id)->0);
    }
    Some(d)
}

/// Reads a line of the paths section as the path with the given id.
pub fn parse_path_line(line: &str, id: PathId) -> (r: Option<PathDefinition>)
    ensures
        match (r, parse_path_spec(line@, id)) {
            (Some(d), Some(v)) => path_view(d) == v,
            (None, None) => true,
            _ => false,
        },
{
    let cs = str_to_chars(line);
    parse_path_chars(cs.as_slice(), id)
}

/// The reader's state before any line.
pub open spec fn start_state() -> FileState {
    FileState {
        section: Section::Tiles,
        overrides: Seq::empty(),
        regions: Seq::empty(),
        paths: Seq::empty(),
    }
}

/// One trimmed line: blank lines and `#` comments are skipped, `[regions]`
/// and `[paths]` open those sections and any other `[...]` line the tiles
/// section; any other line is read as the current section says. A line
/// that does not read is skipped; a tile read again takes its new kind.
pub open spec fn step(st: FileState, line: Seq<char>) -> FileState {
    if line.len() == 0 || line[0] == '#' {
        st
    } else if line == "[regions]"@ {
        FileState { section: Section::Regions, ..st }
    } else if line == "[paths]"@ {
        FileState { section: Section::Paths, ..st }
    } else if line[0] == '[' {
        FileState { section: Section::Tiles, ..st }
    } else {
        match st.section {
            Section::Tiles => match parse_tile_line_spec(line) {
                Some((k, v)) => FileState { overrides: tile_set(st.overrides, k, v), ..st },
                None => st,
            },
            Section::Regions => match parse_region_spec(line) {
                Some(r) => FileState { regions: st.regions.push(r), ..st },
                None => st,
            },
            Section::Paths => match parse_path_spec(line, PathId(st.paths.len() as usize)) {
                Some(p) => FileState { paths: st.paths.push(p), ..st },
                None => st,
            },
        }
    }
}

/// The state after the lines `lines[..n]`, each trimmed.
pub open spec fn read_lines(lines: Seq<Seq<char>>, n: int) -> FileState
    decreases n,
{
    if n <= 0 {
        start_state()
    } else {
        step(read_lines(lines, n - 1), trim(lines[n - 1]))
    }
}

/// What a map file's text holds.
pub open spec fn read_text(text: Seq<char>) -> FileState {
    let lines = split_on(text, '\n');
    read_lines(lines, lines.len() as int)
}

/// The data read from a map file, as plain values.
pub open spec fn data_view(d: TerrainFileData) -> FileState {
    FileState {
        section: Section::Tiles,
        overrides: d.overrides@,
        regions: regions_view(d.regions@),
        paths: paths_view(d.paths@),
    }
}

/// The same data, whatever section the reader ended in.
pub open spec fn same_data(a: FileState, b: FileState) -> bool {
    &&& a.overrides == b.overrides
    &&& a.regions == b.regions
    &&& a.paths == b.paths
}

fn is_comment_or_blank(line: &[char]) -> (r: bool)
    ensures
        r == (line@.len() == 0 || line@[0] == '#'),
{
    line.len() == 0 || line[0] == '#'
}

/// Reads the text of a map file (see `step` for the rules).
pub fn parse_terrain_file(contents: &str) -> (r: TerrainFileData)
    ensures
        same_data(data_view(r), read_text(contents@)),
        tiles_unique(r.overrides@),
{
    let text = str_to_chars(contents);
    let lines = split_char(text.as_slice(), '\n');
    let ghost lv = views(lines@);
    let regions_key = str_to_chars("[regions]");
    let paths_key = str_to_chars("[paths]");
    let mut overrides: Vec<(Axial, TerrainKind)> = Vec::new();
    let mut regions: Vec<RegionDefinition> = Vec::new();
    let mut paths: Vec<PathDefinition> = Vec::new();
    let mut section = Section::Tiles;
    let mut n: usize = 0;
    assert(regions_view(regions@) =~= Seq::<RegionView>::empty());
    assert(paths_view(paths@) =~= Seq::<PathView>::empty());
    while n < lines.len()
        invariant
            n <= lines@.len(),
            lv == views(lines@),
            lv == split_on(text@, '\n'),
            text@ == contents@,
            regions_key@ == "[regions]"@,
            paths_key@ == "[paths]"@,
            tiles_unique(overrides@),
            read_lines(lv, n as int) == (FileState {
                section,
                overrides: overrides@,
                regions: regions_view(regions@),
                paths: paths_view(paths@),
            }),
        decreases lines@.len() - n,
    {
        let line = trim_chars(lines[n].as_slice());
        assert(lv[n as int] == lines@[n as int]@);
        let ghost st = read_lines(lv, n as int);
        if is_comment_or_blank(line.as_slice()) {
        } else if chars_eq(line.as_slice(), regions_key.as_slice()) {
            section = Section::Regions;
        } else if chars_eq(line.as_slice(), paths_key.as_slice()) {
            section = Section::Paths;
        } else if line[0] == '[' {
            section = Section::Tiles;
        } else {
            match section {
                Section::Tiles => {
                    match parse_tile_line(line.as_slice()) {
                        Some((k, v)) => {
                            proof {
                                lemma_tile_set_unique(overrides@, k, v);
                            }
                            tile_insert(&mut overrides, k, v);
                        },
                        None => {},
                    }
                },
                Section::Regions => {
                    match parse_region_chars(line.as_slice()) {
                        Some(r) => {
                            let ghost before = regions@;
                            regions.push(r);
                            assert(regions_view(regions@) =~= regions_view(before).push(
                                region_view(r),
                            ));
                        },
                        None => {},
                    }
                },
                Section::Paths => {
                    assert(paths_view(paths@).len() == paths@.len());
                    match parse_path_chars(line.as_slice(), PathId(paths.len())) {
                        Some(p) => {
                            let ghost before = paths@;
                            paths.push(p);
                            assert(paths_view(paths@) =~= paths_view(before).push(path_view(p)));
                        },
                        None => {},
                    }
                },
            }
        }
        n = n + 1;
    }
    TerrainFileData { overrides, regions, paths }
}

/// `a` comes before `b` in the order the file lists tiles: by `q`, then `r`.
pub open spec fn tile_before(a: Axial, b: Axial) -> bool {
    a.0 < b.0 || (a.0 == b.0 && a.1 < b.1)
}

/// `e` inserted into `s` before the first entry whose tile comes after it.
pub open spec fn insert_sorted(
    s: Seq<(Axial, TerrainKind)>,
    e: (Axial, TerrainKind),
) -> Seq<(Axial, TerrainKind)>
    decreases s.len(),
{
    if s.len() == 0 {
        seq![e]
    } else if tile_before(e.0, s[0].0) {
        seq![e] + s
    } else {
        seq![s[0]] + insert_sorted(s.drop_first(), e)
    }
}

/// The entries sorted by tile (insertion sort, so equal tiles keep their
/// order).
pub open spec fn sort_entries(s: Seq<(Axial, TerrainKind)>) -> Seq<(Axial, TerrainKind)>
    decreases s.len(),
{
    if s.len() == 0 {
        s
    } else {
        insert_sorted(sort_entries(s.drop_last()), s.last())
    }
}

/// Index of the first entry of `s[i..]` whose tile comes after `t`.
pub open spec fn insert_position(s: Seq<(Axial, TerrainKind)>, t: Axial, i: int) -> int
    decreases s.len() - i,
{
    if i < 0 || i >= s.len() {
        s.len() as int
    } else if tile_before(t, s[i].0) {
        i
    } else {
        insert_position(s, t, i + 1)
    }
}

pub proof fn lemma_insert_sorted_split(s: Seq<(Axial, TerrainKind)>, e: (Axial, TerrainKind))
    ensures
        ({
            let p = insert_position(s, e.0, 0);
            &&& 0 <= p <= s.len()
            &&& insert_sorted(s, e) == s.take(p) + seq![e] + s.skip(p)
        }),
    decreases s.len(),
{
    if s.len() > 0 && !tile_before(e.0, s[0].0) {
        let t = s.drop_first();
        lemma_insert_sorted_split(t, e);
        lemma_insert_position_shift(s, e.0, 1);
        let p = insert_position(t, e.0, 0);
        assert(insert_position(s, e.0, 0) == insert_position(s, e.0, 1));
        assert(seq![s[0]] + (t.take(p) + seq![e] + t.skip(p)) =~= s.take(p + 1) + seq![e] + s.skip(
            p + 1,
        ));
    } else if s.len() > 0 {
        assert(seq![e] + s =~= s.take(0) + seq![e] + s.skip(0));
    } else {
        assert(seq![e] =~= s.take(0) + seq![e] + s.skip(0));
    }
}

proof fn lemma_insert_position_shift(s: Seq<(Axial, TerrainKind)>, t: Axial, i: int)
    requires
        1 <= i <= s.len(),
    ensures
        insert_position(s, t, i) == insert_position(s.drop_first(), t, i - 1) + 1,
        0 <= insert_position(s.drop_first(), t, i - 1) <= s.len() - 1,
    decreases s.len() - i,
{
    if i < s.len() && !tile_before(t, s[i].0) {
        lemma_insert_position_shift(s, t, i + 1);
    }
}

fn tile_before_exec(a: Axial, b: Axial) -> (r: bool)
    ensures
        r == tile_before(a, b),
{
    a.0 < b.0 || (a.0 == b.0 && a.1 < b.1)
}

/// The entries sorted by tile, as `sort_entries` says.
pub fn sorted_entries(entries: &[(Axial, TerrainKind)]) -> (r: Vec<(Axial, TerrainKind)>)
    ensures
        r@ == sort_entries(entries@),
{
    let mut r: Vec<(Axial, TerrainKind)> = Vec::new();
    let mut n: usize = 0;
    while n < entries.len()
        invariant
            n <= entries@.len(),
            r@ == sort_entries(entries@.take(n as int)),
        decreases entries@.len() - n,
    {
        let e = entries[n];
        let mut p: usize = 0;
        while p < r.len() && !tile_before_exec(e.0, r[p].0)
            invariant
                p <= r@.len(),
                insert_position(r@, e.0, 0) == insert_position(r@, e.0, p as int),
            decreases r@.len() - p,
        {
            p = p + 1;
        }
        proof {
            lemma_insert_sorted_split(r@, e);
            assert(entries@.take(n + 1).drop_last() =~= entries@.take(n as int));
            assert(entries@.take(n + 1).last() == e);
        }
        let ghost before = r@;
        r.insert(p, e);
        assert(r@ =~= before.take(p as int) + seq![e] + before.skip(p as int));
        n = n + 1;
    }
    assert(entries@.take(entries@.len() as int) =~= entries@);
    r
}

/// `items` with `sep` between each two.
pub open spec fn join(items: Seq<Seq<char>>, sep: Seq<char>) -> Seq<char>
    decreases items.len(),
{
    if items.len() == 0 {
        Seq::empty()
    } else if items.len() == 1 {
        items[0]
    } else {
        join(items.drop_last(), sep) + sep + items.last()
    }
}

/// `q,r`.
pub open spec fn coord_text(c: Axial) -> Seq<char> {
    signed_decimal(c.0 as int) + seq![','] + signed_decimal(c.1 as int)
}

pub open spec fn coords_text(tiles: Seq<Axial>) -> Seq<char> {
    join(tiles.map_values(|c: Axial| coord_text(c)), seq![' '])
}

/// `q r Kind`.
pub open spec fn tile_line(e: (Axial, TerrainKind)) -> Seq<char> {
    signed_decimal(e.0.0 as int) + seq![' '] + signed_decimal(e.0.1 as int) + seq![' ']
        + e.1.key_spec()
}

/// `name:q,r q,r ...`.
pub open spec fn region_line(r: RegionView) -> Seq<char> {
    r.name + seq![':'] + coords_text(r.tiles)
}

/// `Kind:count:cooldown`.
pub open spec fn group_text(g: GroupView) -> Seq<char> {
    enemy_key_spec(g.kind) + seq![':'] + decimal(g.count as nat) + seq![':'] + g.cooldown
}

/// `name | tiles | groups | level | unlocks | excludes`.
pub open spec fn path_line(p: PathView) -> Seq<char> {
    p.name + " | "@ + coords_text(p.tiles) + " | "@ + join(
        p.enemies.map_values(|g: GroupView| group_text(g)),
        seq![' '],
    ) + " | "@ + decimal(p.level as nat) + " | "@ + join(p.unlocks, seq![',']) + " | "@ + join(
        p.excludes,
        seq![','],
    )
}

/// The lines of a map file, without their line ends: the tiles in order,
/// then (when there are any) a blank line, `[regions]` and the regions, then
/// a blank line, `[paths]` and the paths.
pub open spec fn file_lines(
    sorted: Seq<(Axial, TerrainKind)>,
    regions: Seq<RegionView>,
    paths: Seq<PathView>,
) -> Seq<Seq<char>> {
    sorted.map_values(|e: (Axial, TerrainKind)| tile_line(e)) + (if regions.len() > 0 {
        seq![Seq::<char>::empty(), "[regions]"@] + regions.map_values(|r: RegionView| region_line(r))
    } else {
        Seq::empty()
    }) + (if paths.len() > 0 {
        seq![Seq::<char>::empty(), "[paths]"@] + paths.map_values(|p: PathView| path_line(p))
    } else {
        Seq::empty()
    })
}

/// The lines, each followed by a line end.
pub open spec fn terminated(lines: Seq<Seq<char>>) -> Seq<char>
    decreases lines.len(),
{
    if lines.len() == 0 {
        Seq::empty()
    } else {
        terminated(lines.drop_last()) + lines.last() + seq!['\n']
    }
}

/// The text of the map file for this data.
pub open spec fn file_text(
    overrides: Seq<(Axial, TerrainKind)>,
    regions: Seq<RegionView>,
    paths: Seq<PathView>,
) -> Seq<char> {
    terminated(file_lines(sort_entries(overrides), regions, paths))
}

fn push_coord(out: &mut Vec<char>, c: Axial)
    ensures
        final(out)@ == old(out)@ + coord_text(c),
{
    push_signed_decimal(out, c.0 as i64);
    out.push(',');
    push_signed_decimal(out, c.1 as i64);
    assert(out@ =~= old(out)@ + coord_text(c));
}

fn push_coords(out: &mut Vec<char>, tiles: &Vec<Axial>)
    ensures
        final(out)@ == old(out)@ + coords_text(tiles@),
{
    let ghost texts = tiles@.map_values(|c: Axial| coord_text(c));
    let mut i: usize = 0;
    while i < tiles.len()
        invariant
            i <= tiles@.len(),
            texts == tiles@.map_values(|c: Axial| coord_text(c)),
            out@ == old(out)@ + join(texts.take(i as int), seq![' ']),
        decreases tiles@.len() - i,
    {
        let ghost mid = out@;
        if i > 0 {
            out.push(' ');
        }
        push_coord(out, tiles[i]);
        proof {
            let t = texts.take(i + 1);
            assert(t.drop_last() =~= texts.take(i as int));
            assert(t.last() == coord_text(tiles@[i as int]));
            if i == 0 {
                assert(out@ =~= old(out)@ + join(t, seq![' ']));
            } else {
                assert(out@ =~= old(out)@ + join(t, seq![' ']));
            }
        }
        i = i + 1;
    }
    assert(texts.take(tiles@.len() as int) =~= texts);
}

fn push_names(out: &mut Vec<char>, names: &Vec<String>)
    ensures
        final(out)@ == old(out)@ + join(strings_view(names@), seq![',']),
{
    let ghost texts = strings_view(names@);
    let mut i: usize = 0;
    while i < names.len()
        invariant
            i <= names@.len(),
            texts == strings_view(names@),
            out@ == old(out)@ + join(texts.take(i as int), seq![',']),
        decreases names@.len() - i,
    {
        if i > 0 {
            out.push(',');
        }
        append_str(out, names[i].as_str());
        proof {
            let t = texts.take(i + 1);
            assert(t.drop_last() =~= texts.take(i as int));
            assert(t.last() == names@[i as int]@);
            assert(out@ =~= old(out)@ + join(t, seq![',']));
        }
        i = i + 1;
    }
    assert(texts.take(names@.len() as int) =~= texts);
}

fn push_group(out: &mut Vec<char>, g: &PathEnemyGroup)
    ensures
        final(out)@ == old(out)@ + group_text(group_view(*g)),
{
    append_str(out, enemy_kind_key(g.kind));
    out.push(':');
    push_decimal(out, g.count as u64);
    out.push(':');
    append_str(out, g.cooldown.as_str());
    assert(out@ =~= old(out)@ + group_text(group_view(*g)));
}

fn push_groups(out: &mut Vec<char>, groups: &Vec<PathEnemyGroup>)
    ensures
        final(out)@ == old(out)@ + join(
            groups@.map_values(|g: PathEnemyGroup| group_view(g)).map_values(
                |g: GroupView| group_text(g),
            ),
            seq![' '],
        ),
{
    let ghost texts = groups@.map_values(|g: PathEnemyGroup| group_view(g)).map_values(
        |g: GroupView| group_text(g),
    );
    let mut i: usize = 0;
    while i < groups.len()
        invariant
            i <= groups@.len(),
            texts == groups@.map_values(|g: PathEnemyGroup| group_view(g)).map_values(
                |g: GroupView| group_text(g),
            ),
            out@ == old(out)@ + join(texts.take(i as int), seq![' ']),
        decreases groups@.len() - i,
    {
        if i > 0 {
            out.push(' ');
        }
        push_group(out, &groups[i]);
        proof {
            let t = texts.take(i + 1);
            assert(t.drop_last() =~= texts.take(i as int));
            assert(t.last() == group_text(group_view(groups@[i as int])));
            assert(out@ =~= old(out)@ + join(t, seq![' ']));
        }
        i = i + 1;
    }
    assert(texts.take(groups@.len() as int) =~= texts);
}

fn push_line_end(out: &mut Vec<char>, lines: Ghost<Seq<Seq<char>>>, start: usize)
    requires
        start <= old(out)@.len(),
        old(out)@ == terminated(lines@) + old(out)@.skip(start as int),
        start == terminated(lines@).len(),
    ensures
        final(out)@ == terminated(lines@.push(old(out)@.skip(start as int))),
{
    let ghost line = out@.skip(start as int);
    out.push('\n');
    proof {
        let l2 = lines@.push(line);
        assert(l2.drop_last() =~= lines@);
        assert(l2.last() == line);
        assert(out@ =~= terminated(l2));
    }
}

/// The text of the map file for the given tiles, regions and paths (the
/// tiles sorted by coordinate).
pub fn terrain_file_text(
    overrides: &[(Axial, TerrainKind)],
    regions: &[RegionDefinition],
    paths: &[PathDefinition],
) -> (r: String)
    ensures
        r@ == file_text(overrides@, regions_view(regions@), paths_view(paths@)),
{
    let entries = sorted_entries(overrides);
    let ghost rv = regions_view(regions@);
    let ghost pv = paths_view(paths@);
    let ghost sorted = entries@;
    let ghost target = file_lines(sorted, rv, pv);
    let mut out: Vec<char> = Vec::new();
    let ghost mut done: Seq<Seq<char>> = Seq::empty();
    let mut i: usize = 0;
    while i < entries.len()
        invariant
            i <= entries@.len(),
            sorted == entries@,
            done == sorted.take(i as int).map_values(|e: (Axial, TerrainKind)| tile_line(e)),
            out@ == terminated(done),
        decreases entries@.len() - i,
    {
        let start = out.len();
        let (c, kind) = entries[i];
        push_signed_decimal(&mut out, c.0 as i64);
        out.push(' ');
        push_signed_decimal(&mut out, c.1 as i64);
        out.push(' ');
        append_str(&mut out, kind.key());
        assert(out@.skip(start as int) =~= tile_line(entries@[i as int]));
        assert(out@ =~= terminated(done) + out@.skip(start as int));
        push_line_end(&mut out, Ghost(done), start);
        proof {
            done = done.push(tile_line(entries@[i as int]));
            assert(done =~= sorted.take(i + 1).map_values(|e: (Axial, TerrainKind)| tile_line(e)));
        }
        i = i + 1;
    }
    assert(sorted.take(sorted.len() as int) =~= sorted);
    if regions.len() > 0 {
        let start = out.len();
        assert(out@ =~= terminated(done) + out@.skip(start as int));
        assert(out@.skip(start as int) =~= Seq::<char>::empty());
        push_line_end(&mut out, Ghost(done), start);
        proof {
            done = done.push(Seq::empty());
        }
        let start = out.len();
        append_str(&mut out, "[regions]");
        assert(out@ =~= terminated(done) + out@.skip(start as int));
        assert(out@.skip(start as int) =~= "[regions]"@);
        push_line_end(&mut out, Ghost(done), start);
        proof {
            done = done.push("[regions]"@);
        }
        let ghost base = done;
        let mut k: usize = 0;
        while k < regions.len()
            invariant
                k <= regions@.len(),
                rv == regions_view(regions@),
                done == base + rv.take(k as int).map_values(|r: RegionView| region_line(r)),
                out@ == terminated(done),
            decreases regions@.len() - k,
        {
            let start = out.len();
            let region = &regions[k];
            append_str(&mut out, region.name.as_str());
            out.push(':');
            push_coords(&mut out, &region.tiles);
            assert(out@.skip(start as int) =~= region_line(rv[k as int]));
            assert(out@ =~= terminated(done) + out@.skip(start as int));
            push_line_end(&mut out, Ghost(done), start);
            proof {
                done = done.push(region_line(rv[k as int]));
                assert(done =~= base + rv.take(k + 1).map_values(|r: RegionView| region_line(r)));
            }
            k = k + 1;
        }
        assert(rv.take(rv.len() as int) =~= rv);
    }
    let ghost after_regions = done;
    if paths.len() > 0 {
        let start = out.len();
        assert(out@ =~= terminated(done) + out@.skip(start as int));
        assert(out@.skip(start as int) =~= Seq::<char>::empty());
        push_line_end(&mut out, Ghost(done), start);
        proof {
            done = done.push(Seq::empty());
        }
        let start = out.len();
        append_str(&mut out, "[paths]");
        assert(out@ =~= terminated(done) + out@.skip(start as int));
        assert(out@.skip(start as int) =~= "[paths]"@);
        push_line_end(&mut out, Ghost(done), start);
        proof {
            done = done.push("[paths]"@);
        }
        let ghost base = done;
        let mut k: usize = 0;
        while k < paths.len()
            invariant
                k <= paths@.len(),
                pv == paths_view(paths@),
                done == base + pv.take(k as int).map_values(|p: PathView| path_line(p)),
                out@ == terminated(done),
            decreases paths@.len() - k,
        {
            let start = out.len();
            let path = &paths[k];
            append_str(&mut out, path.name.as_str());
            append_str(&mut out, " | ");
            push_coords(&mut out, &path.tiles);
            append_str(&mut out, " | ");
            push_groups(&mut out, &path.enemies);
            append_str(&mut out, " | ");
            push_decimal(&mut out, path.level as u64);
            append_str(&mut out, " | ");
            push_names(&mut out, &path.unlocks);
            append_str(&mut out, " | ");
            push_names(&mut out, &path.excludes);
            assert(out@.skip(start as int) =~= path_line(pv[k as int]));
            assert(out@ =~= terminated(done) + out@.skip(start as int));
            push_line_end(&mut out, Ghost(done), start);
            proof {
                done = done.push(path_line(pv[k as int]));
                assert(done =~= base + pv.take(k + 1).map_values(|p: PathView| path_line(p)));
            }
            k = k + 1;
        }
        assert(pv.take(pv.len() as int) =~= pv);
    }
    assert(done =~= target);
    chars_to_string(out.as_slice())
}

} // verus!
