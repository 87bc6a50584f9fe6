use vstd::prelude::*;

use crate::components::EnemyKind;
use crate::hex::{tile_get, tile_map, tile_set, tiles_unique, Axial};
use crate::terrain::TerrainKind;
use crate::regions::RegionView;
use crate::paths::{GroupView, PathId, PathView};
use crate::terrain_file::{
    coord_text, coords_text, enemy_key_spec, enemy_kind_from_key, group_text, groups_upto, join,
    kept_names, parse_coord_spec, parse_group_spec, parse_path_spec, path_line,
    parse_coords_spec, parse_coords_upto, parse_region_spec, parse_tile_line_spec, read_lines,
    read_text, region_line, start_state, step, terminated, tile_line, FileState, insert_sorted,
    sort_entries, file_lines, file_text, Section,
};
use crate::text::{
    decimal, find_exp, is_digit, is_float_literal, is_ws, join_with, lacks, lemma_split_concat,
    lemma_ws_concat, lemma_ws_join, lemma_ws_single, matches_ignore_case, no_ws, parse_i32_spec,
    signed_decimal, split_on, split_once, split_ws, trimmed, valid_mantissa,
};

verus! {

proof fn lemma_join_with_back(items: Seq<Seq<char>>, c: char)
    requires
        items.len() >= 2,
    ensures
        join_with(items, c) == join_with(items.drop_last(), c) + seq![c] + items.last(),
    decreases items.len(),
{
    if items.len() > 2 {
        let rest = items.drop_first();
        lemma_join_with_back(rest, c);
        assert(rest.drop_last() =~= items.drop_last().drop_first());
        assert(rest.last() == items.last());
        assert(items.drop_last()[0] == items[0]);
        assert(join_with(items.drop_last(), c) == items[0] + seq![c] + join_with(
            items.drop_last().drop_first(),
            c,
        ));
        assert(join_with(items, c) =~= join_with(items.drop_last(), c) + seq![c] + items.last());
    } else {
        assert(items.drop_last() =~= seq![items[0]]);
        assert(items.drop_first() =~= seq![items[1]]);
        assert(join_with(seq![items[1]], c) == items[1]);
        assert(join_with(seq![items[0]], c) == items[0]);
    }
}

/// The file's way of joining (from the back) is joining from the front.
pub proof fn lemma_join_is_join_with(items: Seq<Seq<char>>, c: char)
    ensures
        join(items, seq![c]) == join_with(items, c),
    decreases items.len(),
{
    if items.len() >= 2 {
        lemma_join_is_join_with(items.drop_last(), c);
        lemma_join_with_back(items, c);
    }
}

proof fn lemma_terminated_front(lines: Seq<Seq<char>>)
    requires
        lines.len() >= 1,
    ensures
        terminated(lines) == lines[0] + seq!['\n'] + terminated(lines.drop_first()),
    decreases lines.len(),
{
    if lines.len() == 1 {
        assert(lines.drop_last() =~= Seq::<Seq<char>>::empty());
        assert(lines.drop_first() =~= Seq::<Seq<char>>::empty());
        assert(terminated(Seq::<Seq<char>>::empty()) =~= Seq::<char>::empty());
        assert(lines.last() == lines[0]);
        assert(terminated(lines) =~= lines[0] + seq!['\n']);
    } else {
        let init = lines.drop_last();
        lemma_terminated_front(init);
        assert(init.drop_first() =~= lines.drop_first().drop_last());
        assert(lines.drop_first().last() == lines.last());
        assert(init[0] == lines[0]);
        assert(terminated(lines.drop_first()) == terminated(lines.drop_first().drop_last())
            + lines.drop_first().last() + seq!['\n']);
        assert(terminated(lines) =~= lines[0] + seq!['\n'] + terminated(lines.drop_first()));
    }
}

/// Lines without line ends, each ended, split back into the lines and a
/// final empty piece.
pub proof fn lemma_split_terminated(lines: Seq<Seq<char>>)
    requires
        forall|i: int| 0 <= i < lines.len() ==> lacks(#[trigger] lines[i], '\n'),
    ensures
        split_on(terminated(lines), '\n') == lines.push(Seq::<char>::empty()),
    decreases lines.len(),
{
    if lines.len() == 0 {
        assert(Seq::<char>::empty().subrange(0, 0) =~= Seq::<char>::empty());
        assert(split_on(Seq::<char>::empty(), '\n') =~= seq![Seq::<char>::empty()]);
        assert(lines.push(Seq::<char>::empty()) =~= seq![Seq::<char>::empty()]);
    } else {
        let rest = lines.drop_first();
        assert forall|i: int| 0 <= i < rest.len() implies lacks(#[trigger] rest[i], '\n') by {
            assert(rest[i] == lines[i + 1]);
        }
        lemma_split_terminated(rest);
        lemma_terminated_front(lines);
        assert(lacks(lines[0], '\n'));
        lemma_split_concat(lines[0], terminated(rest), '\n');
        assert(seq![lines[0]] + rest.push(Seq::<char>::empty()) =~= lines.push(
            Seq::<char>::empty(),
        ));
    }
}

/// The reader's state after the lines `lines`, from `st`.
pub open spec fn run(st: FileState, lines: Seq<Seq<char>>) -> FileState
    decreases lines.len(),
{
    if lines.len() == 0 {
        st
    } else {
        step(run(st, lines.drop_last()), crate::text::trim(lines.last()))
    }
}

proof fn lemma_read_lines_run(lines: Seq<Seq<char>>, n: int)
    requires
        0 <= n <= lines.len(),
    ensures
        read_lines(lines, n) == run(start_state(), lines.take(n)),
    decreases n,
{
    if n > 0 {
        lemma_read_lines_run(lines, n - 1);
        assert(lines.take(n).drop_last() =~= lines.take(n - 1));
        assert(lines.take(n).last() == lines[n - 1]);
    }
}

/// Reading `a` then `b` is reading `a + b`.
pub proof fn lemma_run_concat(st: FileState, a: Seq<Seq<char>>, b: Seq<Seq<char>>)
    ensures
        run(st, a + b) == run(run(st, a), b),
    decreases b.len(),
{
    if b.len() == 0 {
        assert(a + b =~= a);
    } else {
        lemma_run_concat(st, a, b.drop_last());
        assert((a + b).drop_last() =~= a + b.drop_last());
        assert((a + b).last() == b.last());
    }
}

/// What a text made of ended lines reads as.
pub proof fn lemma_read_terminated(lines: Seq<Seq<char>>)
    requires
        forall|i: int| 0 <= i < lines.len() ==> lacks(#[trigger] lines[i], '\n'),
    ensures
        read_text(terminated(lines)) == run(start_state(), lines),
{
    lemma_split_terminated(lines);
    let all = lines.push(Seq::<char>::empty());
    lemma_read_lines_run(all, all.len() as int);
    assert(all.take(all.len() as int) =~= all);
    assert(all.drop_last() =~= lines);
    assert(crate::text::trim(Seq::<char>::empty()) =~= Seq::<char>::empty()) by {
        crate::text::lemma_trim_trimmed(Seq::<char>::empty());
    }
}

/// A character that is neither whitespace nor one of the file's separators
/// (`,` `:` `|` and the line end) nor a line opener (`#` `[`).
pub open spec fn plain_char(c: char) -> bool {
    &&& !is_ws(c)
    &&& c != ','
    &&& c != ':'
    &&& c != '|'
    &&& c != '\n'
    &&& c != '#'
    &&& c != '['
}

pub open spec fn plain_text(s: Seq<char>) -> bool {
    forall|i: int| 0 <= i < s.len() ==> plain_char(#[trigger] s[i])
}

proof fn lemma_plain_concat(a: Seq<char>, b: Seq<char>)
    requires
        plain_text(a),
        plain_text(b),
    ensures
        plain_text(a + b),
{
    assert forall|i: int| 0 <= i < (a + b).len() implies plain_char(#[trigger] (a + b)[i]) by {
        if i < a.len() {
            assert((a + b)[i] == a[i]);
        } else {
            assert((a + b)[i] == b[i - a.len()]);
        }
    }
}

proof fn lemma_plain_code(c: char)
    requires
        ({
            let u = c as u32;
            u == 43 || u == 45 || u == 46 || (48 <= u <= 57) || (65 <= u <= 90) || (97 <= u
                <= 122)
        }),
    ensures
        plain_char(c),
{
}

proof fn lemma_decimal_plain(n: nat)
    ensures
        decimal(n).len() > 0,
        plain_text(decimal(n)),
        is_digit(decimal(n).last()),
        is_digit(decimal(n)[0]),
{
    crate::text::lemma_decimal_digits(n);
    assert forall|i: int| 0 <= i < decimal(n).len() implies plain_char(#[trigger] decimal(n)[i]) by {
        assert(is_digit(decimal(n)[i]));
        lemma_plain_code(decimal(n)[i]);
    }
}

proof fn lemma_signed_plain(v: int)
    ensures
        signed_decimal(v).len() > 0,
        plain_text(signed_decimal(v)),
        is_digit(signed_decimal(v).last()),
        !is_ws(signed_decimal(v)[0]),
{
    let m = if v < 0 {
        (-v) as nat
    } else {
        v as nat
    };
    lemma_decimal_plain(m);
    if v < 0 {
        lemma_plain_code('-');
        assert(plain_text(seq!['-']));
        lemma_plain_concat(seq!['-'], decimal(m));
        assert(signed_decimal(v).last() == decimal(m).last());
    }
}

proof fn lemma_float_plain(s: Seq<char>)
    requires
        is_float_literal(s),
    ensures
        s.len() > 0,
        plain_text(s),
{
    let t = if s.len() > 0 && (s[0] == '+' || s[0] == '-') {
        s.drop_first()
    } else {
        s
    };
    let k = find_exp(t, 0);
    crate::text::lemma_find_exp_bounds(t, 0);
    assert forall|i: int| 0 <= i < t.len() implies plain_char(#[trigger] t[i]) by {
        if matches_ignore_case(t, seq!['i', 'n', 'f']) || matches_ignore_case(
            t,
            seq!['i', 'n', 'f', 'i', 'n', 'i', 't', 'y'],
        ) || matches_ignore_case(t, seq!['n', 'a', 'n']) {
            lemma_plain_code(t[i]);
        } else if i < k {
            assert(t.take(k)[i] == t[i]);
            lemma_plain_code(t[i]);
        } else {
            let e = t.skip(k);
            assert(e[i - k] == t[i]);
            let r = e.drop_first();
            if i > k {
                assert(r[i - k - 1] == t[i]);
                if r[0] == '+' || r[0] == '-' {
                    if i > k + 1 {
                        assert(r.drop_first()[i - k - 2] == t[i]);
                    }
                }
            }
            lemma_plain_code(t[i]);
        }
    }
    if s.len() > 0 && (s[0] == '+' || s[0] == '-') {
        assert forall|i: int| 0 <= i < s.len() implies plain_char(#[trigger] s[i]) by {
            if i > 0 {
                assert(s[i] == t[i - 1]);
            } else {
                lemma_plain_code(s[0]);
            }
        }
    }
    if s.len() == 0 {
        assert(t.len() == 0);
        assert(k == 0);
        assert(!valid_mantissa(t.take(k)));
    }
}

proof fn lemma_key_plain(kind: TerrainKind)
    ensures
        kind.key_spec().len() > 0,
        plain_text(kind.key_spec()),
{
    reveal_strlit("Plains");
    reveal_strlit("Mountain");
    reveal_strlit("WaterBody");
    reveal_strlit("Volcano");
    reveal_strlit("Forest");
    reveal_strlit("PineForest");
    reveal_strlit("AlpineForest");
    reveal_strlit("Desert");
    let k = kind.key_spec();
    assert forall|i: int| 0 <= i < k.len() implies plain_char(#[trigger] k[i]) by {
        lemma_plain_code(k[i]);
    }
}

proof fn lemma_enemy_key(kind: EnemyKind)
    ensures
        enemy_key_spec(kind).len() > 0,
        plain_text(enemy_key_spec(kind)),
        enemy_kind_from_key(enemy_key_spec(kind)) == Some(kind),
{
    reveal_strlit("Grunt");
    reveal_strlit("Runner");
    reveal_strlit("Brute");
    reveal_strlit("Armored");
    reveal_strlit("Titan");
    let k = enemy_key_spec(kind);
    assert forall|i: int| 0 <= i < k.len() implies plain_char(#[trigger] k[i]) by {
        lemma_plain_code(k[i]);
    }
    let ks = seq!["Grunt"@, "Runner"@, "Brute"@, "Armored"@, "Titan"@];
    assert("Grunt"@[0] != "Brute"@[0]);
    assert("Grunt"@[0] != "Titan"@[0]);
    assert("Brute"@[0] != "Titan"@[0]);
    assert forall|a: int, b: int| 0 <= a < b < 5 implies ks[a] != ks[b] by {
        if ks[a].len() == ks[b].len() {
            assert(ks[a][0] != ks[b][0]);
        }
    }
    match kind {
        EnemyKind::Grunt => assert(ks[0] == k),
        EnemyKind::Runner => assert(ks[1] == k),
        EnemyKind::Brute => assert(ks[2] == k),
        EnemyKind::Armored => assert(ks[3] == k),
        EnemyKind::Titan => assert(ks[4] == k),
    }
}

/// Plain text has no whitespace, and lacks each separator.
proof fn lemma_plain_facts(s: Seq<char>)
    requires
        plain_text(s),
    ensures
        no_ws(s),
        lacks(s, ','),
        lacks(s, ':'),
        lacks(s, '|'),
        lacks(s, '\n'),
{
    assert forall|i: int| 0 <= i < s.len() implies !is_ws(s[i]) by {
        assert(plain_char(s[i]));
    }
}

proof fn lemma_parse_i32_decimal(v: i32)
    ensures
        parse_i32_spec(signed_decimal(v as int)) == Some(v),
{
    crate::text::lemma_parse_signed_decimal(v as int);
}

/// A tile line reads back as its entry.
proof fn lemma_tile_line(e: (Axial, TerrainKind))
    ensures
        tile_line(e).len() > 0,
        trimmed(tile_line(e)),
        lacks(tile_line(e), '\n'),
        plain_char(tile_line(e)[0]),
        parse_tile_line_spec(tile_line(e)) == Some(e),
{
    let q = signed_decimal(e.0.0 as int);
    let r = signed_decimal(e.0.1 as int);
    let k = e.1.key_spec();
    lemma_signed_plain(e.0.0 as int);
    lemma_signed_plain(e.0.1 as int);
    lemma_key_plain(e.1);
    lemma_plain_facts(q);
    lemma_plain_facts(r);
    lemma_plain_facts(k);
    let line = tile_line(e);
    let tail = r + seq![' '] + k;
    assert(line =~= q + seq![' '] + tail);
    lemma_ws_concat(q, tail, ' ');
    lemma_ws_concat(r, k, ' ');
    lemma_ws_single(k);
    assert(split_ws(line) =~= seq![q, r, k]);
    lemma_parse_i32_decimal(e.0.0);
    lemma_parse_i32_decimal(e.0.1);
    crate::terrain::lemma_key_round_trip(e.1);
    assert(line[0] == q[0]);
    assert(line.last() == k.last());
    assert forall|i: int| 0 <= i < line.len() implies line[i] != '\n' by {
        if i < q.len() {
            assert(line[i] == q[i]);
        } else if i == q.len() {
        } else if i < q.len() + 1 + r.len() {
            assert(line[i] == r[i - q.len() - 1]);
        } else if i == q.len() + 1 + r.len() {
        } else {
            assert(line[i] == k[i - q.len() - 2 - r.len()]);
        }
    }
}

proof fn lemma_split_once_concat(x: Seq<char>, y: Seq<char>, c: char)
    requires
        lacks(x, c),
    ensures
        split_once(x + seq![c] + y, c) == Some((x, y)),
{
    let s = x + seq![c] + y;
    crate::text::lemma_find_from(s, c, 0);
    let k = crate::text::find_from(s, c, 0);
    assert(s[x.len() as int] == c);
    if k < x.len() {
        assert(s[k] == x[k]);
    }
    assert(k == x.len());
    assert(s.take(k) =~= x);
    assert(s.skip(k + 1) =~= y);
}

/// Every character of the joined text is one of an item or the separator.
proof fn lemma_join_lacks(items: Seq<Seq<char>>, sep: char, c: char)
    requires
        sep != c,
        forall|i: int| 0 <= i < items.len() ==> lacks(#[trigger] items[i], c),
    ensures
        lacks(join_with(items, sep), c),
    decreases items.len(),
{
    if items.len() >= 2 {
        let rest = items.drop_first();
        assert forall|i: int| 0 <= i < rest.len() implies lacks(#[trigger] rest[i], c) by {
            assert(rest[i] == items[i + 1]);
        }
        lemma_join_lacks(rest, sep, c);
        let a = items[0];
        assert(lacks(a, c));
        let j = join_with(items, sep);
        let tail = join_with(rest, sep);
        assert forall|i: int| 0 <= i < j.len() implies j[i] != c by {
            if i < a.len() {
                assert(j[i] == a[i]);
            } else if i > a.len() {
                assert(j[i] == tail[i - a.len() - 1]);
            }
        }
    } else if items.len() == 1 {
        assert(lacks(items[0], c));
    }
}

/// The joined text starts with the first item and ends with the last.
proof fn lemma_join_ends(items: Seq<Seq<char>>, sep: char)
    requires
        items.len() > 0,
        forall|i: int| 0 <= i < items.len() ==> (#[trigger] items[i]).len() > 0,
    ensures
        join_with(items, sep).len() > 0,
        join_with(items, sep)[0] == items[0][0],
        join_with(items, sep).last() == items.last().last(),
    decreases items.len(),
{
    if items.len() >= 2 {
        let rest = items.drop_first();
        assert forall|i: int| 0 <= i < rest.len() implies (#[trigger] rest[i]).len() > 0 by {
            assert(rest[i] == items[i + 1]);
        }
        lemma_join_ends(rest, sep);
        assert(items[0].len() > 0);
        assert(rest.last() == items.last());
    } else {
        assert(items[0].len() > 0);
    }
}

/// What a coordinate's text is made of, and that it reads back.
proof fn lemma_coord(c: Axial)
    ensures
        coord_text(c).len() > 0,
        no_ws(coord_text(c)),
        lacks(coord_text(c), ':'),
        lacks(coord_text(c), '|'),
        lacks(coord_text(c), '\n'),
        is_digit(coord_text(c).last()),
        parse_coord_spec(coord_text(c)) == Some(c),
{
    let q = signed_decimal(c.0 as int);
    let r = signed_decimal(c.1 as int);
    lemma_signed_plain(c.0 as int);
    lemma_signed_plain(c.1 as int);
    lemma_plain_facts(q);
    lemma_plain_facts(r);
    let t = coord_text(c);
    assert forall|i: int| 0 <= i < t.len() implies !is_ws(t[i]) && t[i] != ':' && t[i] != '|'
        && t[i] != '\n' by {
        if i < q.len() {
            assert(t[i] == q[i]);
        } else if i > q.len() {
            assert(t[i] == r[i - q.len() - 1]);
        }
    }
    assert(t.last() == r.last());
    lemma_split_once_concat(q, r, ',');
    lemma_parse_i32_decimal(c.0);
    lemma_parse_i32_decimal(c.1);
}

proof fn lemma_parse_coords_upto(tiles: Seq<Axial>, n: int)
    requires
        0 <= n <= tiles.len(),
    ensures
        parse_coords_upto(tiles.map_values(|c: Axial| coord_text(c)), n) == Some(tiles.take(n)),
    decreases n,
{
    let toks = tiles.map_values(|c: Axial| coord_text(c));
    if n == 0 {
        assert(tiles.take(0) =~= Seq::<Axial>::empty());
    } else {
        lemma_parse_coords_upto(tiles, n - 1);
        lemma_coord(tiles[n - 1]);
        assert(toks[n - 1] == coord_text(tiles[n - 1]));
        assert(tiles.take(n - 1).push(tiles[n - 1]) =~= tiles.take(n));
    }
}

/// What a list of coordinates is written as, and that it reads back.
proof fn lemma_coords(tiles: Seq<Axial>)
    ensures
        lacks(coords_text(tiles), ':'),
        lacks(coords_text(tiles), '|'),
        lacks(coords_text(tiles), '\n'),
        trimmed(coords_text(tiles)),
        tiles.len() > 0 ==> coords_text(tiles).len() > 0,
        parse_coords_spec(split_ws(coords_text(tiles))) == Some(tiles),
{
    let toks = tiles.map_values(|c: Axial| coord_text(c));
    lemma_join_is_join_with(toks, ' ');
    assert forall|i: int| 0 <= i < toks.len() implies (#[trigger] toks[i]).len() > 0 && no_ws(
        toks[i],
    ) && lacks(toks[i], ':') && lacks(toks[i], '|') && lacks(toks[i], '\n') by {
        lemma_coord(tiles[i]);
    }
    lemma_join_lacks(toks, ' ', ':');
    lemma_join_lacks(toks, ' ', '|');
    lemma_join_lacks(toks, ' ', '\n');
    lemma_ws_join(toks, ' ');
    lemma_parse_coords_upto(tiles, tiles.len() as int);
    assert(tiles.take(tiles.len() as int) =~= tiles);
    if tiles.len() > 0 {
        lemma_join_ends(toks, ' ');
        lemma_coord(tiles[0]);
        lemma_coord(tiles.last());
        assert(toks[0] == coord_text(tiles[0]));
        assert(toks.last() == coord_text(tiles.last()));
        assert(!is_ws(toks[0][0]));
    } else {
        assert(toks =~= Seq::<Seq<char>>::empty());
    }
}

/// A region the file can hold: its name is trimmed, free of `:` and line
/// ends, does not start like a comment or a section header, and it has tiles.
pub open spec fn region_writable(r: RegionView) -> bool {
    &&& trimmed(r.name)
    &&& lacks(r.name, ':')
    &&& lacks(r.name, '\n')
    &&& (r.name.len() > 0 ==> r.name[0] != '#' && r.name[0] != '[')
    &&& r.tiles.len() > 0
}

/// A region's line reads back as the region.
proof fn lemma_region_line(r: RegionView)
    requires
        region_writable(r),
    ensures
        region_line(r).len() > 0,
        trimmed(region_line(r)),
        lacks(region_line(r), '\n'),
        region_line(r)[0] != '#' && region_line(r)[0] != '[',
        parse_region_spec(region_line(r)) == Some(r),
{
    let ct = coords_text(r.tiles);
    lemma_coords(r.tiles);
    let line = region_line(r);
    assert(line =~= r.name + seq![':'] + ct);
    lemma_split_once_concat(r.name, ct, ':');
    crate::text::lemma_trim_trimmed(r.name);
    assert forall|i: int| 0 <= i < line.len() implies line[i] != '\n' by {
        if i < r.name.len() {
            assert(line[i] == r.name[i]);
        } else if i > r.name.len() {
            assert(line[i] == ct[i - r.name.len() - 1]);
        }
    }
    if r.name.len() > 0 {
        assert(line[0] == r.name[0]);
    } else {
        assert(line[0] == ':');
    }
    assert(line.last() == ct.last());
}

/// An enemy group's text reads back as the group.
proof fn lemma_group(g: GroupView)
    requires
        is_float_literal(g.cooldown),
    ensures
        group_text(g).len() > 0,
        no_ws(group_text(g)),
        lacks(group_text(g), '|'),
        lacks(group_text(g), '\n'),
        parse_group_spec(group_text(g)) == Some(g),
{
    let k = enemy_key_spec(g.kind);
    let d = decimal(g.count as nat);
    let cd = g.cooldown;
    lemma_enemy_key(g.kind);
    lemma_decimal_plain(g.count as nat);
    lemma_float_plain(cd);
    lemma_plain_facts(k);
    lemma_plain_facts(d);
    lemma_plain_facts(cd);
    let t = group_text(g);
    assert(t =~= k + seq![':'] + (d + seq![':'] + cd));
    lemma_split_concat(k, d + seq![':'] + cd, ':');
    lemma_split_concat(d, cd, ':');
    crate::text::lemma_split_single(cd, ':');
    assert(split_on(t, ':') =~= seq![k, d, cd]);
    crate::text::lemma_parse_decimal(g.count as nat);
    assert forall|i: int| 0 <= i < t.len() implies !is_ws(t[i]) && t[i] != '|' && t[i] != '\n' by {
        if i < k.len() {
            assert(t[i] == k[i]);
        } else if k.len() < i < k.len() + 1 + d.len() {
            assert(t[i] == d[i - k.len() - 1]);
        } else if i > k.len() + d.len() + 1 {
            assert(t[i] == cd[i - k.len() - d.len() - 2]);
        }
    }
}

proof fn lemma_groups_upto(gs: Seq<GroupView>, n: int)
    requires
        0 <= n <= gs.len(),
        forall|i: int| 0 <= i < gs.len() ==> is_float_literal(#[trigger] gs[i].cooldown),
    ensures
        groups_upto(gs.map_values(|g: GroupView| group_text(g)), n) == gs.take(n),
    decreases n,
{
    let toks = gs.map_values(|g: GroupView| group_text(g));
    if n == 0 {
        assert(gs.take(0) =~= Seq::<GroupView>::empty());
    } else {
        lemma_groups_upto(gs, n - 1);
        assert(is_float_literal(gs[n - 1].cooldown));
        lemma_group(gs[n - 1]);
        assert(toks[n - 1] == group_text(gs[n - 1]));
        assert(gs.take(n - 1) + seq![gs[n - 1]] =~= gs.take(n));
    }
}

/// A name of an unlock or exclude list the file can hold.
pub open spec fn list_name_writable(u: Seq<char>) -> bool {
    &&& u.len() > 0
    &&& trimmed(u)
    &&& lacks(u, ',')
    &&& lacks(u, '|')
    &&& lacks(u, '\n')
}

proof fn lemma_kept_names(items: Seq<Seq<char>>, n: int)
    requires
        0 <= n <= items.len(),
        forall|i: int| 0 <= i < items.len() ==> list_name_writable(#[trigger] items[i]),
    ensures
        kept_names(items, n) == items.take(n),
    decreases n,
{
    if n == 0 {
        assert(items.take(0) =~= Seq::<Seq<char>>::empty());
    } else {
        lemma_kept_names(items, n - 1);
        assert(list_name_writable(items[n - 1]));
        crate::text::lemma_trim_trimmed(items[n - 1]);
        assert(items.take(n - 1) + seq![items[n - 1]] =~= items.take(n));
    }
}

/// A list of names, comma-joined, reads back as the list.
proof fn lemma_name_list(items: Seq<Seq<char>>)
    requires
        forall|i: int| 0 <= i < items.len() ==> list_name_writable(#[trigger] items[i]),
    ensures
        trimmed(join(items, seq![','])),
        lacks(join(items, seq![',']), '|'),
        lacks(join(items, seq![',']), '\n'),
        crate::terrain_file::name_list(join(items, seq![','])) == items,
        crate::terrain_file::name_list(seq![' '] + join(items, seq![',']) + seq![' ']) == items,
        join(items, seq![',']).len() > 0 ==> crate::terrain_file::name_list(
            seq![' '] + join(items, seq![',']),
        ) == items,
{
    lemma_join_is_join_with(items, ',');
    let j = join_with(items, ',');
    assert forall|i: int| 0 <= i < items.len() implies lacks(#[trigger] items[i], '|') && lacks(
        items[i],
        '\n',
    ) && lacks(items[i], ',') by {
        assert(list_name_writable(items[i]));
    }
    lemma_join_lacks(items, ',', '|');
    lemma_join_lacks(items, ',', '\n');
    if items.len() > 0 {
        assert forall|i: int| 0 <= i < items.len() implies (#[trigger] items[i]).len() > 0 by {
            assert(list_name_writable(items[i]));
        }
        lemma_join_ends(items, ',');
        assert(list_name_writable(items[0]));
        assert(list_name_writable(items.last()));
        crate::text::lemma_split_join(items, ',');
        lemma_kept_names(items, items.len() as int);
        assert(items.take(items.len() as int) =~= items);
    } else {
        assert(j =~= Seq::<char>::empty());
        assert(Seq::<char>::empty().subrange(0, 0) =~= Seq::<char>::empty());
        assert(split_on(j, ',') =~= seq![Seq::<char>::empty()]);
        crate::text::lemma_trim_trimmed(Seq::<char>::empty());
        let one = seq![Seq::<char>::empty()];
        assert(one[0] == Seq::<char>::empty());
        assert(crate::text::trim(one[0]).len() == 0);
        assert(kept_names(one, 0) =~= Seq::<Seq<char>>::empty());
        assert(kept_names(one, 1) =~= Seq::<Seq<char>>::empty());
        assert(items =~= Seq::<Seq<char>>::empty());
    }
    crate::text::lemma_trim_trimmed(j);
    crate::text::lemma_trim_pad(seq![' '], j, seq![' ']);
    crate::text::lemma_trim_pad(seq![' '], j, Seq::<char>::empty());
    assert(seq![' '] + j + Seq::<char>::empty() =~= seq![' '] + j);
}

/// A path the file can hold: a trimmed name free of `|` and line ends
/// that does not start like a comment or a section header, cooldowns that
/// read as numbers, and unlock and exclude names that can be listed.
pub open spec fn path_writable(p: PathView) -> bool {
    &&& trimmed(p.name)
    &&& lacks(p.name, '|')
    &&& lacks(p.name, '\n')
    &&& (p.name.len() > 0 ==> p.name[0] != '#' && p.name[0] != '[')
    &&& forall|i: int| 0 <= i < p.enemies.len() ==> is_float_literal(#[trigger] p.enemies[i].cooldown)
    &&& forall|i: int| 0 <= i < p.unlocks.len() ==> list_name_writable(#[trigger] p.unlocks[i])
    &&& forall|i: int| 0 <= i < p.excludes.len() ==> list_name_writable(#[trigger] p.excludes[i])
}

proof fn lemma_groups_text(gs: Seq<GroupView>)
    requires
        forall|i: int| 0 <= i < gs.len() ==> is_float_literal(#[trigger] gs[i].cooldown),
    ensures
        trimmed(join(gs.map_values(|g: GroupView| group_text(g)), seq![' '])),
        lacks(join(gs.map_values(|g: GroupView| group_text(g)), seq![' ']), '|'),
        lacks(join(gs.map_values(|g: GroupView| group_text(g)), seq![' ']), '\n'),
        ({
            let toks = split_ws(join(gs.map_values(|g: GroupView| group_text(g)), seq![' ']));
            groups_upto(toks, toks.len() as int) == gs
        }),
{
    let texts = gs.map_values(|g: GroupView| group_text(g));
    lemma_join_is_join_with(texts, ' ');
    assert forall|i: int| 0 <= i < texts.len() implies (#[trigger] texts[i]).len() > 0 && no_ws(
        texts[i],
    ) && lacks(texts[i], '|') && lacks(texts[i], '\n') by {
        assert(is_float_literal(gs[i].cooldown));
        lemma_group(gs[i]);
    }
    lemma_join_lacks(texts, ' ', '|');
    lemma_join_lacks(texts, ' ', '\n');
    lemma_ws_join(texts, ' ');
    lemma_groups_upto(gs, gs.len() as int);
    assert(gs.take(gs.len() as int) =~= gs);
    if gs.len() > 0 {
        lemma_join_ends(texts, ' ');
        assert(no_ws(texts[0]));
        assert(no_ws(texts.last()));
    }
}

/// The pieces of a path's line between its `|` separators, after the
/// line is trimmed.
pub open spec fn path_parts(p: PathView) -> Seq<Seq<char>> {
    let sp = seq![' '];
    let e = join(p.excludes, seq![',']);
    seq![
        if p.name.len() == 0 {
            Seq::<char>::empty()
        } else {
            p.name + sp
        },
        sp + coords_text(p.tiles) + sp,
        sp + join(p.enemies.map_values(|g: GroupView| group_text(g)), sp) + sp,
        sp + decimal(p.level as nat) + sp,
        sp + join(p.unlocks, seq![',']) + sp,
        if e.len() == 0 {
            Seq::<char>::empty()
        } else {
            sp + e
        },
    ]
}

/// The whitespace the trim takes off the front of a path's line.
pub open spec fn lead_ws(p: PathView) -> Seq<char> {
    if p.name.len() == 0 {
        seq![' ']
    } else {
        Seq::empty()
    }
}

/// The whitespace the trim takes off the end of a path's line.
pub open spec fn tail_ws(p: PathView) -> Seq<char> {
    if join(p.excludes, seq![',']).len() == 0 {
        seq![' ']
    } else {
        Seq::empty()
    }
}


proof fn lemma_join_cons(first: Seq<char>, rest: Seq<Seq<char>>, c: char)
    requires
        rest.len() >= 1,
    ensures
        join_with(seq![first] + rest, c) == first + seq![c] + join_with(rest, c),
{
    let all = seq![first] + rest;
    assert(all.drop_first() =~= rest);
    assert(all[0] == first);
}

/// Six pieces joined by `c`.
proof fn lemma_join6(a: Seq<Seq<char>>, c: char)
    requires
        a.len() == 6,
    ensures
        join_with(a, c) == a[0] + seq![c] + a[1] + seq![c] + a[2] + seq![c] + a[3] + seq![c] + a[4]
            + seq![c] + a[5],
{
    let s5 = seq![a[5]];
    let s4 = seq![a[4]] + s5;
    let s3 = seq![a[3]] + s4;
    let s2 = seq![a[2]] + s3;
    let s1 = seq![a[1]] + s2;
    let s0 = seq![a[0]] + s1;
    assert(s0 =~= a);
    assert(join_with(s5, c) == a[5]);
    lemma_join_cons(a[4], s5, c);
    lemma_join_cons(a[3], s4, c);
    lemma_join_cons(a[2], s3, c);
    lemma_join_cons(a[1], s2, c);
    lemma_join_cons(a[0], s1, c);
    assert(join_with(a, c) =~= a[0] + seq![c] + a[1] + seq![c] + a[2] + seq![c] + a[3] + seq![c]
        + a[4] + seq![c] + a[5]);
}

#[verifier::rlimit(60)]
#[verifier::spinoff_prover]
proof fn lemma_path_line_decompose(p: PathView)
    ensures
        path_line(p) == lead_ws(p) + join_with(path_parts(p), '|') + tail_ws(p),
{
    reveal_strlit(" | ");
    let parts = path_parts(p);
    let bar = seq!['|'];
    let sp = seq![' '];
    let sep = " | "@;
    assert(sep =~= sp + bar + sp);
    let n = p.name;
    let c = coords_text(p.tiles);
    let g = join(p.enemies.map_values(|g: GroupView| group_text(g)), sp);
    let d = decimal(p.level as nat);
    let u = join(p.unlocks, seq![',']);
    let e = join(p.excludes, seq![',']);
    let lead = lead_ws(p);
    let tail = tail_ws(p);
    let l1 = n + sep;
    let r1 = lead + parts[0] + bar + sp;
    assert(l1 =~= r1);
    let l2 = l1 + c + sep;
    let r2 = lead + parts[0] + bar + parts[1] + bar + sp;
    assert(r1 + c + sep =~= r2);
    let l3 = l2 + g + sep;
    let r3b = lead + parts[0] + bar + parts[1] + bar + parts[2] + bar + sp;
    assert(r2 + g + sep =~= r3b);
    let l4 = l3 + d + sep;
    let r4 = lead + parts[0] + bar + parts[1] + bar + parts[2] + bar + parts[3] + bar + sp;
    assert(r3b + d + sep =~= r4);
    let l5 = l4 + u + sep;
    let r5 = lead + parts[0] + bar + parts[1] + bar + parts[2] + bar + parts[3] + bar + parts[4]
        + bar + sp;
    assert(r4 + u + sep =~= r5);
    let x = parts[0] + bar + parts[1] + bar + parts[2] + bar + parts[3] + bar + parts[4] + bar
        + parts[5];
    assert(r5 + e =~= lead + x + tail);
    assert(path_line(p) == l5 + e);
    lemma_join6(parts, '|');
}

proof fn lemma_path_parts_lack(p: PathView)
    requires
        path_writable(p),
    ensures
        forall|i: int| 0 <= i < path_parts(p).len() ==> lacks(#[trigger] path_parts(p)[i], '|')
            && lacks(path_parts(p)[i], '\n'),
        path_parts(p)[0].len() > 0 ==> path_parts(p)[0][0] == p.name[0],
        path_parts(p)[5].len() > 0 ==> path_parts(p)[5].last() == join(p.excludes, seq![',']).last(),
{
    lemma_coords(p.tiles);
    lemma_groups_text(p.enemies);
    lemma_decimal_plain(p.level as nat);
    lemma_plain_facts(decimal(p.level as nat));
    lemma_name_list(p.unlocks);
    lemma_name_list(p.excludes);
    let parts = path_parts(p);
    assert forall|i: int| 0 <= i < parts.len() implies lacks(#[trigger] parts[i], '|') && lacks(
        parts[i],
        '\n',
    ) by {
        let q = parts[i];
        assert forall|k: int| 0 <= k < q.len() implies q[k] != '|' && q[k] != '\n' by {
            if i == 0 {
                if k < p.name.len() {
                    assert(q[k] == p.name[k]);
                }
            } else if i == 5 {
                if k > 0 {
                    assert(q[k] == join(p.excludes, seq![','])[k - 1]);
                }
            } else if i == 1 {
                if 0 < k < q.len() - 1 {
                    assert(q[k] == coords_text(p.tiles)[k - 1]);
                }
            } else if i == 2 {
                if 0 < k < q.len() - 1 {
                    assert(q[k] == join(
                        p.enemies.map_values(|g: GroupView| group_text(g)),
                        seq![' '],
                    )[k - 1]);
                }
            } else if i == 3 {
                if 0 < k < q.len() - 1 {
                    assert(q[k] == decimal(p.level as nat)[k - 1]);
                }
            } else {
                if 0 < k < q.len() - 1 {
                    assert(q[k] == join(p.unlocks, seq![','])[k - 1]);
                }
            }
        }
    }
}

#[verifier::rlimit(30)]
proof fn lemma_parse_path_parts(p: PathView, x: Seq<char>)
    requires
        path_writable(p),
        split_on(x, '|') == path_parts(p),
    ensures
        parse_path_spec(x, p.id) == Some(p),
{
    let sp = seq![' '];
    let parts = path_parts(p);
    let c = coords_text(p.tiles);
    let g = join(p.enemies.map_values(|g: GroupView| group_text(g)), sp);
    let d = decimal(p.level as nat);
    lemma_coords(p.tiles);
    lemma_groups_text(p.enemies);
    lemma_decimal_plain(p.level as nat);
    lemma_name_list(p.unlocks);
    lemma_name_list(p.excludes);
    crate::text::lemma_trim_pad(sp, c, sp);
    crate::text::lemma_trim_pad(sp, g, sp);
    crate::text::lemma_trim_pad(sp, d, sp);
    crate::text::lemma_parse_decimal(p.level as nat);
    if p.name.len() > 0 {
        crate::text::lemma_trim_pad(Seq::<char>::empty(), p.name, sp);
        assert(Seq::<char>::empty() + p.name + sp =~= parts[0]);
    } else {
        crate::text::lemma_trim_trimmed(parts[0]);
    }
    let e = join(p.excludes, seq![',']);
    if e.len() == 0 {
        assert(parts[5] == e);
    }
    assert(crate::text::trim(parts[1]) == c);
    assert(crate::text::trim(parts[2]) == g);
    assert(crate::text::trim(parts[3]) == d);
    assert(crate::text::trim(parts[0]) == p.name);
    assert(crate::terrain_file::name_list(parts[4]) == p.unlocks);
    assert(crate::terrain_file::name_list(parts[5]) == p.excludes);
}

/// A path's line, trimmed, reads back as the path.
proof fn lemma_path_line(p: PathView)
    requires
        path_writable(p),
    ensures
        lacks(path_line(p), '\n'),
        crate::text::trim(path_line(p)).len() > 0,
        crate::text::trim(path_line(p))[0] != '#',
        crate::text::trim(path_line(p))[0] != '[',
        parse_path_spec(crate::text::trim(path_line(p)), p.id) == Some(p),
{
    lemma_path_line_decompose(p);
    lemma_path_parts_lack(p);
    let parts = path_parts(p);
    let x = join_with(parts, '|');
    crate::text::lemma_split_join(parts, '|');
    lemma_join_lacks(parts, '|', '\n');
    let e = join(p.excludes, seq![',']);
    lemma_join6(parts, '|');
    let bar = seq!['|'];
    assert(x =~= parts[0] + bar + parts[1] + bar + parts[2] + bar + parts[3] + bar + parts[4]
        + bar + parts[5]);
    if p.name.len() > 0 {
        assert(x[0] == parts[0][0]);
    } else {
        assert(x[0] == '|');
    }
    if e.len() > 0 {
        assert(x.last() == parts[5].last());
        lemma_name_list(p.excludes);
    } else {
        assert(x.last() == '|');
    }
    assert(crate::text::all_ws(lead_ws(p)));
    assert(crate::text::all_ws(tail_ws(p)));
    crate::text::lemma_trim_pad(lead_ws(p), x, tail_ws(p));
    lemma_parse_path_parts(p, x);
    let line = path_line(p);
    assert forall|i: int| 0 <= i < line.len() implies line[i] != '\n' by {
        let w1 = lead_ws(p);
        if w1.len() <= i < w1.len() + x.len() {
            assert(line[i] == x[i - w1.len()]);
        }
    }
}

/// In a list without repeated tiles, a tile's value is that of its entry.
proof fn lemma_tile_get_member(s: Seq<(Axial, TerrainKind)>, k: Axial, v: TerrainKind)
    requires
        tiles_unique(s),
    ensures
        tile_get(s, k) == Some(v) <==> s.contains((k, v)),
{
    crate::hex::lemma_find_tile(s, k, 0);
    let i = crate::hex::find_tile(s, k, 0);
    if s.contains((k, v)) {
        let j = choose|j: int| 0 <= j < s.len() && s[j] == (k, v);
        assert(s[j].0 == k);
        assert(i <= j);
        if i < j {
            assert(s[i].0 == s[j].0);
        }
    }
    if tile_get(s, k) == Some(v) {
        assert(s[i] == (k, v));
    }
}

/// A list with no entry for tile `k` gets it appended.
proof fn lemma_tile_set_new(s: Seq<(Axial, TerrainKind)>, k: Axial, v: TerrainKind)
    requires
        forall|i: int| 0 <= i < s.len() ==> (#[trigger] s[i]).0 != k,
    ensures
        tile_set(s, k, v) == s.push((k, v)),
{
    crate::hex::lemma_find_tile(s, k, 0);
}

proof fn lemma_insert_sorted_members(s: Seq<(Axial, TerrainKind)>, e: (Axial, TerrainKind))
    requires
        tiles_unique(s),
        forall|i: int| 0 <= i < s.len() ==> (#[trigger] s[i]).0 != e.0,
    ensures
        tiles_unique(insert_sorted(s, e)),
        forall|x: (Axial, TerrainKind)| #[trigger]
            insert_sorted(s, e).contains(x) <==> (s.contains(x) || x == e),
{
    crate::terrain_file::lemma_insert_sorted_split(s, e);
    let p = crate::terrain_file::insert_position(s, e.0, 0);
    let r = insert_sorted(s, e);
    assert(r.len() == s.len() + 1);
    assert forall|i: int| 0 <= i < r.len() implies #[trigger] r[i] == if i < p {
        s[i]
    } else if i == p {
        e
    } else {
        s[i - 1]
    } by {
        assert(r == s.take(p) + seq![e] + s.skip(p));
    }
    assert forall|a: int, b: int| 0 <= a < b < r.len() implies r[a].0 != r[b].0 by {
        assert(r[a] == if a < p { s[a] } else if a == p { e } else { s[a - 1] });
        assert(r[b] == if b < p { s[b] } else if b == p { e } else { s[b - 1] });
    }
    assert forall|x: (Axial, TerrainKind)| #[trigger] r.contains(x) <==> (s.contains(x) || x
        == e) by {
        if r.contains(x) {
            let i = choose|i: int| 0 <= i < r.len() && r[i] == x;
            assert(r[i] == if i < p { s[i] } else if i == p { e } else { s[i - 1] });
            if i < p {
                assert(s[i] == x);
            } else if i > p {
                assert(s[i - 1] == x);
            }
        }
        if s.contains(x) {
            let i = choose|i: int| 0 <= i < s.len() && s[i] == x;
            if i < p {
                assert(r[i] == x);
            } else {
                assert(r[i + 1] == x);
            }
        }
        if x == e {
            assert(r[p] == e);
        }
    }
}

/// Sorting keeps the entries and their tiles distinct.
proof fn lemma_sort_entries(s: Seq<(Axial, TerrainKind)>)
    requires
        tiles_unique(s),
    ensures
        tiles_unique(sort_entries(s)),
        sort_entries(s).len() == s.len(),
        forall|x: (Axial, TerrainKind)| #[trigger] sort_entries(s).contains(x) <==> s.contains(x),
    decreases s.len(),
{
    if s.len() > 0 {
        let init = s.drop_last();
        let e = s.last();
        assert(tiles_unique(init));
        lemma_sort_entries(init);
        let t = sort_entries(init);
        assert forall|i: int| 0 <= i < t.len() implies (#[trigger] t[i]).0 != e.0 by {
            assert(t.contains(t[i]));
            assert(init.contains(t[i]));
            let j = choose|j: int| 0 <= j < init.len() && init[j] == t[i];
            assert(s[j] == init[j]);
            assert(s[s.len() - 1] == e);
        }
        lemma_insert_sorted_members(t, e);
        crate::terrain_file::lemma_insert_sorted_split(t, e);
        assert forall|x: (Axial, TerrainKind)| #[trigger] sort_entries(s).contains(x)
            <==> s.contains(x) by {
            if s.contains(x) && x != e {
                let j = choose|j: int| 0 <= j < s.len() && s[j] == x;
                assert(j < s.len() - 1);
                assert(init[j] == x);
            }
            if init.contains(x) {
                let j = choose|j: int| 0 <= j < init.len() && init[j] == x;
                assert(s[j] == x);
            }
            if x == e {
                assert(s[s.len() - 1] == x);
            }
        }
    }
}

/// Sorting the entries does not change what tile holds what.
pub proof fn lemma_sort_keeps_map(s: Seq<(Axial, TerrainKind)>)
    requires
        tiles_unique(s),
    ensures
        tiles_unique(sort_entries(s)),
        tile_map(sort_entries(s)) == tile_map(s),
{
    lemma_sort_entries(s);
    let t = sort_entries(s);
    assert forall|k: Axial| #[trigger] tile_get(t, k) == tile_get(s, k) by {
        crate::hex::lemma_find_tile(t, k, 0);
        crate::hex::lemma_find_tile(s, k, 0);
        match tile_get(t, k) {
            Some(v) => {
                lemma_tile_get_member(t, k, v);
                lemma_tile_get_member(s, k, v);
            },
            None => {
                match tile_get(s, k) {
                    Some(v) => {
                        lemma_tile_get_member(t, k, v);
                        lemma_tile_get_member(s, k, v);
                    },
                    None => {},
                }
            },
        }
    }
    assert(tile_map(t) =~= tile_map(s)) by {
        assert forall|k: Axial| #[trigger] tile_map(t).dom().contains(k) <==> tile_map(
            s,
        ).dom().contains(k) by {
            assert(tile_get(t, k) == tile_get(s, k));
        }
        assert forall|k: Axial| tile_map(t).dom().contains(k) implies tile_map(t)[k] == tile_map(
            s,
        )[k] by {
            assert(tile_get(t, k) == tile_get(s, k));
        }
    }
}

proof fn lemma_not_header(line: Seq<char>)
    requires
        line.len() > 0,
        line[0] != '[',
    ensures
        line != "[regions]"@,
        line != "[paths]"@,
{
    reveal_strlit("[regions]");
    reveal_strlit("[paths]");
    assert("[regions]"@[0] == '[');
    assert("[paths]"@[0] == '[');
}

/// Reading the tile lines of sorted entries with distinct tiles gives the
/// entries back, in the tiles section.
proof fn lemma_run_tiles(sorted: Seq<(Axial, TerrainKind)>, k: int)
    requires
        tiles_unique(sorted),
        0 <= k <= sorted.len(),
    ensures
        run(start_state(), sorted.take(k).map_values(|e: (Axial, TerrainKind)| tile_line(e)))
            == (FileState {
            section: Section::Tiles,
            overrides: sorted.take(k),
            regions: Seq::empty(),
            paths: Seq::empty(),
        }),
    decreases k,
{
    let lines = sorted.take(k).map_values(|e: (Axial, TerrainKind)| tile_line(e));
    if k == 0 {
        assert(lines =~= Seq::<Seq<char>>::empty());
        assert(sorted.take(0) =~= Seq::<(Axial, TerrainKind)>::empty());
    } else {
        lemma_run_tiles(sorted, k - 1);
        assert(lines.drop_last() =~= sorted.take(k - 1).map_values(
            |e: (Axial, TerrainKind)| tile_line(e),
        ));
        let e = sorted[k - 1];
        assert(lines.last() == tile_line(e));
        lemma_tile_line(e);
        crate::text::lemma_trim_trimmed(tile_line(e));
        lemma_not_header(tile_line(e));
        let prev = sorted.take(k - 1);
        assert forall|i: int| 0 <= i < prev.len() implies (#[trigger] prev[i]).0 != e.0 by {
            assert(prev[i] == sorted[i]);
        }
        lemma_tile_set_new(prev, e.0, e.1);
        assert(prev.push(e) =~= sorted.take(k));
    }
}

/// Reading region lines in the regions section adds the regions.
proof fn lemma_run_regions(st: FileState, rs: Seq<RegionView>, k: int)
    requires
        st.section == Section::Regions,
        0 <= k <= rs.len(),
        forall|i: int| 0 <= i < rs.len() ==> region_writable(#[trigger] rs[i]),
    ensures
        run(st, rs.take(k).map_values(|r: RegionView| region_line(r))) == (FileState {
            regions: st.regions + rs.take(k),
            ..st
        }),
    decreases k,
{
    let lines = rs.take(k).map_values(|r: RegionView| region_line(r));
    if k == 0 {
        assert(lines =~= Seq::<Seq<char>>::empty());
        assert(st.regions + rs.take(0) =~= st.regions);
    } else {
        lemma_run_regions(st, rs, k - 1);
        assert(lines.drop_last() =~= rs.take(k - 1).map_values(|r: RegionView| region_line(r)));
        let r = rs[k - 1];
        assert(region_writable(r));
        assert(lines.last() == region_line(r));
        lemma_region_line(r);
        crate::text::lemma_trim_trimmed(region_line(r));
        lemma_not_header(region_line(r));
        assert((st.regions + rs.take(k - 1)).push(r) =~= st.regions + rs.take(k));
    }
}

/// Reading path lines in the paths section adds the paths, each numbered by
/// its place.
proof fn lemma_run_paths(st: FileState, ps: Seq<PathView>, k: int)
    requires
        st.section == Section::Paths,
        st.paths.len() == 0,
        0 <= k <= ps.len(),
        forall|i: int| 0 <= i < ps.len() ==> path_writable(#[trigger] ps[i]),
        forall|i: int| 0 <= i < ps.len() ==> (#[trigger] ps[i]).id == PathId(i as usize),
    ensures
        run(st, ps.take(k).map_values(|p: PathView| path_line(p))) == (FileState {
            paths: ps.take(k),
            ..st
        }),
    decreases k,
{
    let lines = ps.take(k).map_values(|p: PathView| path_line(p));
    if k == 0 {
        assert(lines =~= Seq::<Seq<char>>::empty());
        assert(ps.take(0) =~= st.paths);
    } else {
        lemma_run_paths(st, ps, k - 1);
        assert(lines.drop_last() =~= ps.take(k - 1).map_values(|p: PathView| path_line(p)));
        let p = ps[k - 1];
        assert(path_writable(p));
        assert(p.id == PathId((k - 1) as usize));
        assert(lines.last() == path_line(p));
        lemma_path_line(p);
        lemma_not_header(crate::text::trim(path_line(p)));
        assert(ps.take(k - 1).len() == k - 1);
        assert(ps.take(k - 1).push(p) =~= ps.take(k));
    }
}

proof fn lemma_run_header(st: FileState, word: Seq<char>, section: Section)
    requires
        word == "[regions]"@ && section == Section::Regions || word == "[paths]"@ && section
            == Section::Paths,
    ensures
        run(st, seq![Seq::<char>::empty(), word]) == (FileState { section, ..st }),
{
    reveal_strlit("[regions]");
    reveal_strlit("[paths]");
    let lines = seq![Seq::<char>::empty(), word];
    assert("[regions]"@ != "[paths]"@) by {
        assert("[regions]"@.len() != "[paths]"@.len());
    }
    assert(lines.drop_last() =~= seq![Seq::<char>::empty()]);
    assert(lines.drop_last().drop_last() =~= Seq::<Seq<char>>::empty());
    crate::text::lemma_trim_trimmed(Seq::<char>::empty());
    assert(trimmed(word));
    crate::text::lemma_trim_trimmed(word);
    assert(run(st, lines.drop_last().drop_last()) == st);
    assert(lines.drop_last().last() == Seq::<char>::empty());
    assert(run(st, lines.drop_last()) == st);
    assert(lines.last() == word);
    assert(crate::text::trim(word) == word);
    assert(word.len() > 0 && word[0] == '[');
}

/// Lines of the map file have no line ends in them.
proof fn lemma_lines_lack_newline(
    sorted: Seq<(Axial, TerrainKind)>,
    regions: Seq<RegionView>,
    paths: Seq<PathView>,
)
    requires
        forall|i: int| 0 <= i < regions.len() ==> region_writable(#[trigger] regions[i]),
        forall|i: int| 0 <= i < paths.len() ==> path_writable(#[trigger] paths[i]),
    ensures
        forall|i: int|
            0 <= i < file_lines(sorted, regions, paths).len() ==> lacks(
                #[trigger] file_lines(sorted, regions, paths)[i],
                '\n',
            ),
{
    reveal_strlit("[regions]");
    reveal_strlit("[paths]");
    let t = sorted.map_values(|e: (Axial, TerrainKind)| tile_line(e));
    let hr = if regions.len() > 0 {
        seq![Seq::<char>::empty(), "[regions]"@] + regions.map_values(|r: RegionView| region_line(r))
    } else {
        Seq::empty()
    };
    let hp = if paths.len() > 0 {
        seq![Seq::<char>::empty(), "[paths]"@] + paths.map_values(|p: PathView| path_line(p))
    } else {
        Seq::empty()
    };
    let all = file_lines(sorted, regions, paths);
    assert(all == t + hr + hp);
    assert forall|i: int| 0 <= i < all.len() implies lacks(#[trigger] all[i], '\n') by {
        if i < t.len() {
            assert(all[i] == t[i]);
            lemma_tile_line(sorted[i]);
        } else if i < t.len() + hr.len() {
            let j = i - t.len();
            assert(all[i] == hr[j]);
            if j >= 2 {
                assert(hr[j] == region_line(regions[j - 2]));
                lemma_region_line(regions[j - 2]);
            }
        } else {
            let j = i - t.len() - hr.len();
            assert(all[i] == hp[j]);
            if j >= 2 {
                assert(hp[j] == path_line(paths[j - 2]));
                lemma_path_line(paths[j - 2]);
            }
        }
    }
}

/// What a read gives back of a write: reading the text written for a map
/// gives its tiles (sorted by coordinate, each tile with the same kind), its
/// regions and its paths, when every name can be written (see
/// `region_writable` and `path_writable`), no tile is listed twice, and the
/// paths are numbered by their place.
#[verifier::rlimit(80)]
#[verifier::spinoff_prover]
pub proof fn lemma_file_round_trip(
    overrides: Seq<(Axial, TerrainKind)>,
    regions: Seq<RegionView>,
    paths: Seq<PathView>,
)
    requires
        tiles_unique(overrides),
        forall|i: int| 0 <= i < regions.len() ==> region_writable(#[trigger] regions[i]),
        forall|i: int| 0 <= i < paths.len() ==> path_writable(#[trigger] paths[i]),
        forall|i: int| 0 <= i < paths.len() ==> (#[trigger] paths[i]).id == PathId(i as usize),
    ensures
        read_text(file_text(overrides, regions, paths)).overrides == sort_entries(overrides),
        tile_map(read_text(file_text(overrides, regions, paths)).overrides) == tile_map(overrides),
        read_text(file_text(overrides, regions, paths)).regions == regions,
        read_text(file_text(overrides, regions, paths)).paths == paths,
{
    let sorted = sort_entries(overrides);
    lemma_sort_keeps_map(overrides);
    let t = sorted.map_values(|e: (Axial, TerrainKind)| tile_line(e));
    let rl = regions.map_values(|r: RegionView| region_line(r));
    let pl = paths.map_values(|p: PathView| path_line(p));
    let hr = if regions.len() > 0 {
        seq![Seq::<char>::empty(), "[regions]"@] + rl
    } else {
        Seq::empty()
    };
    let hp = if paths.len() > 0 {
        seq![Seq::<char>::empty(), "[paths]"@] + pl
    } else {
        Seq::empty()
    };
    let lines = file_lines(sorted, regions, paths);
    assert(lines == t + hr + hp);
    lemma_lines_lack_newline(sorted, regions, paths);
    lemma_read_terminated(lines);
    lemma_run_concat(start_state(), t + hr, hp);
    lemma_run_concat(start_state(), t, hr);
    lemma_run_tiles(sorted, sorted.len() as int);
    assert(sorted.take(sorted.len() as int) =~= sorted);
    let s1 = run(start_state(), t);
    assert(s1 == (FileState {
        section: Section::Tiles,
        overrides: sorted,
        regions: Seq::empty(),
        paths: Seq::empty(),
    }));
    let s2 = run(s1, hr);
    if regions.len() > 0 {
        lemma_run_concat(s1, seq![Seq::<char>::empty(), "[regions]"@], rl);
        lemma_run_header(s1, "[regions]"@, Section::Regions);
        let s1b = FileState { section: Section::Regions, ..s1 };
        lemma_run_regions(s1b, regions, regions.len() as int);
        assert(regions.take(regions.len() as int) =~= regions);
        assert(Seq::<RegionView>::empty() + regions =~= regions);
        assert(s2.regions == regions);
    } else {
        assert(hr =~= Seq::<Seq<char>>::empty());
        assert(regions =~= Seq::<RegionView>::empty());
    }
    assert(s2.overrides == sorted);
    assert(s2.paths == Seq::<PathView>::empty());
    let s3 = run(s2, hp);
    if paths.len() > 0 {
        lemma_run_concat(s2, seq![Seq::<char>::empty(), "[paths]"@], pl);
        lemma_run_header(s2, "[paths]"@, Section::Paths);
        let s2b = FileState { section: Section::Paths, ..s2 };
        lemma_run_paths(s2b, paths, paths.len() as int);
        assert(paths.take(paths.len() as int) =~= paths);
    } else {
        assert(hp =~= Seq::<Seq<char>>::empty());
        assert(paths =~= Seq::<PathView>::empty());
    }
}

} // verus!
