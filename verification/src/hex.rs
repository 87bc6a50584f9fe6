use vstd::prelude::*;

verus! {

/// An axial hex coordinate `(q, r)`.
pub type Axial = (i32, i32);

/// The six axial offsets that lead from a hex to its neighbours.
pub open spec fn is_neighbor_offset(dq: int, dr: int) -> bool {
    ||| (dq == 1 && dr == 0)
    ||| (dq == -1 && dr == 0)
    ||| (dq == 0 && dr == 1)
    ||| (dq == 0 && dr == -1)
    ||| (dq == 1 && dr == -1)
    ||| (dq == -1 && dr == 1)
}

/// Whether two hexes share an edge.
pub open spec fn hex_adjacent(a: Axial, b: Axial) -> bool {
    is_neighbor_offset(b.0 - a.0, b.1 - a.1)
}

/// True exactly when `b - a` is one of the six neighbour offsets.
pub fn are_hex_adjacent(a: Axial, b: Axial) -> (r: bool)
    ensures
        r == hex_adjacent(a, b),
{
    let dq: i64 = b.0 as i64 - a.0 as i64;
    let dr: i64 = b.1 as i64 - a.1 as i64;
    (dq == 1 && dr == 0) || (dq == -1 && dr == 0) || (dq == 0 && dr == 1) || (dq == 0 && dr == -1)
        || (dq == 1 && dr == -1) || (dq == -1 && dr == 1)
}

/// Equality of two hex coordinates.
pub fn same_hex(a: Axial, b: Axial) -> (r: bool)
    ensures
        r == (a == b),
{
    a.0 == b.0 && a.1 == b.1
}

/// Index of the first entry at or after `i` whose tile is `k` (`s.len()`
/// when there is none).
pub open spec fn find_tile<V>(s: Seq<(Axial, V)>, k: Axial, i: int) -> int
    decreases s.len() - i,
{
    if i < 0 || i >= s.len() {
        s.len() as int
    } else if s[i].0 == k {
        i
    } else {
        find_tile(s, k, i + 1)
    }
}

pub proof fn lemma_find_tile<V>(s: Seq<(Axial, V)>, k: Axial, i: int)
    requires
        0 <= i <= s.len(),
    ensures
        i <= find_tile(s, k, i) <= s.len(),
        find_tile(s, k, i) < s.len() ==> s[find_tile(s, k, i)].0 == k,
        forall|j: int| i <= j < find_tile(s, k, i) ==> s[j].0 != k,
    decreases s.len() - i,
{
    if i < s.len() && s[i].0 != k {
        lemma_find_tile(s, k, i + 1);
    }
}

/// The value stored for tile `k` in a list of `(tile, value)` entries.
pub open spec fn tile_get<V>(s: Seq<(Axial, V)>, k: Axial) -> Option<V> {
    let i = find_tile(s, k, 0);
    if i < s.len() {
        Some(s[i].1)
    } else {
        None
    }
}

/// The list after setting the value of tile `k` to `v`: the entry for `k`
/// is replaced in place, or appended when there is none.
pub open spec fn tile_set<V>(s: Seq<(Axial, V)>, k: Axial, v: V) -> Seq<(Axial, V)> {
    let i = find_tile(s, k, 0);
    if i < s.len() {
        s.update(i, (k, v))
    } else {
        s.push((k, v))
    }
}

/// No tile has two entries.
pub open spec fn tiles_unique<V>(s: Seq<(Axial, V)>) -> bool {
    forall|i: int, j: int| 0 <= i < j < s.len() ==> s[i].0 != s[j].0
}

/// The entries as a map from tile to value.
pub open spec fn tile_map<V>(s: Seq<(Axial, V)>) -> Map<Axial, V> {
    Map::new(|k: Axial| find_tile(s, k, 0) < s.len(), |k: Axial| tile_get(s, k)->0)
}

/// The value of tile `k`.
pub fn tile_lookup<V: Copy>(s: &Vec<(Axial, V)>, k: Axial) -> (r: Option<V>)
    ensures
        r == tile_get(s@, k),
{
    let mut i: usize = 0;
    while i < s.len()
        invariant
            i <= s@.len(),
            find_tile(s@, k, 0) == find_tile(s@, k, i as int),
        decreases s@.len() - i,
    {
        if same_hex(s[i].0, k) {
            return Some(s[i].1);
        }
        i = i + 1;
    }
    None
}

/// Sets the value of tile `k` (see `tile_set`).
pub fn tile_insert<V: Copy>(s: &mut Vec<(Axial, V)>, k: Axial, v: V)
    ensures
        final(s)@ == tile_set(old(s)@, k, v),
{
    let mut i: usize = 0;
    while i < s.len()
        invariant
            i <= s@.len(),
            s@ == old(s)@,
            find_tile(s@, k, 0) == find_tile(s@, k, i as int),
        decreases s@.len() - i,
    {
        if same_hex(s[i].0, k) {
            s.set(i, (k, v));
            return;
        }
        i = i + 1;
    }
    s.push((k, v));
}

/// Setting a tile keeps the tiles unique.
pub proof fn lemma_tile_set_unique<V>(s: Seq<(Axial, V)>, k: Axial, v: V)
    requires
        tiles_unique(s),
    ensures
        tiles_unique(tile_set(s, k, v)),
{
    lemma_find_tile(s, k, 0);
}

/// What a read gives back after a write: the value written for that tile,
/// and the old value for every other tile.
pub proof fn lemma_tile_get_set<V>(s: Seq<(Axial, V)>, k: Axial, v: V, k2: Axial)
    ensures
        tile_get(tile_set(s, k, v), k2) == if k2 == k {
            Some(v)
        } else {
            tile_get(s, k2)
        },
{
    let t = tile_set(s, k, v);
    lemma_find_tile(s, k, 0);
    lemma_find_tile(s, k2, 0);
    lemma_find_tile(t, k2, 0);
    let i = find_tile(s, k, 0);
    let a = find_tile(s, k2, 0);
    let b = find_tile(t, k2, 0);
    if k2 == k {
        if i < s.len() {
            assert(t[i].0 == k);
        } else {
            assert(t[s.len() as int].0 == k);
        }
    } else {
        if a < s.len() {
            assert(t[a].0 == k2);
            assert(b <= a);
            if b < a {
                assert(t[b].0 == k2);
                assert(s[b].0 == k2);
            }
        } else {
            if b < t.len() {
                assert(t[b].0 == k2);
                if b < s.len() {
                    assert(s[b].0 == k2);
                }
            }
        }
    }
}

} // verus!
