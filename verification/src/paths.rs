use vstd::prelude::*;

use crate::components::EnemyKind;
use crate::hex::{same_hex, Axial};

verus! {

/// Identifies a path of the map (its position in the map file).
#[derive(Clone, Copy, PartialEq, Eq, Hash, Debug, Structural)]
pub struct PathId(pub usize);

/// A group of enemies that a path sends each round.
pub struct PathEnemyGroup {
    pub kind: EnemyKind,
    pub count: u32,
    /// Seconds between two spawns of the group, as written in the map file.
    pub cooldown: String,
}

/// One path of the network: a chain of adjacent hexes.
pub struct PathDefinition {
    pub id: PathId,
    pub name: String,
    pub tiles: Vec<Axial>,
    pub enemies: Vec<PathEnemyGroup>,
    pub level: u8,
    pub unlocks: Vec<String>,
    pub excludes: Vec<String>,
}

/// What an enemy group holds, as plain values.
pub struct GroupView {
    pub kind: EnemyKind,
    pub count: u32,
    pub cooldown: Seq<char>,
}

/// What a path definition holds, as plain values.
pub struct PathView {
    pub id: PathId,
    pub name: Seq<char>,
    pub tiles: Seq<Axial>,
    pub enemies: Seq<GroupView>,
    pub level: u8,
    pub unlocks: Seq<Seq<char>>,
    pub excludes: Seq<Seq<char>>,
}

pub open spec fn group_view(g: PathEnemyGroup) -> GroupView {
    GroupView { kind: g.kind, count: g.count, cooldown: g.cooldown@ }
}

pub open spec fn strings_view(v: Seq<String>) -> Seq<Seq<char>> {
    v.map_values(|s: String| s@)
}

pub open spec fn path_view(p: PathDefinition) -> PathView {
    PathView {
        id: p.id,
        name: p.name@,
        tiles: p.tiles@,
        enemies: p.enemies@.map_values(|g: PathEnemyGroup| group_view(g)),
        level: p.level,
        unlocks: strings_view(p.unlocks@),
        excludes: strings_view(p.excludes@),
    }
}

pub open spec fn paths_view(v: Seq<PathDefinition>) -> Seq<PathView> {
    v.map_values(|p: PathDefinition| path_view(p))
}

pub open spec fn has_tiles(p: PathDefinition) -> bool {
    p.tiles@.len() > 0
}

pub open spec fn first_tile(p: PathDefinition) -> Axial {
    p.tiles@[0]
}

pub open spec fn last_tile(p: PathDefinition) -> Axial {
    p.tiles@.last()
}

/// `parent` feeds into `child`: another path whose last tile is the child's
/// first tile.
pub open spec fn feeds(parent: PathDefinition, child: PathDefinition) -> bool {
    &&& parent.id != child.id
    &&& has_tiles(parent)
    &&& has_tiles(child)
    &&& last_tile(parent) == first_tile(child)
}

/// Ids of the paths among `paths[..n]` that feed into `child`, in order.
pub open spec fn feeders_upto(paths: Seq<PathDefinition>, child: PathDefinition, n: int) -> Seq<
    PathId,
>
    decreases n,
{
    if n <= 0 {
        Seq::empty()
    } else {
        feeders_upto(paths, child, n - 1) + if feeds(paths[n - 1], child) {
            seq![paths[n - 1].id]
        } else {
            Seq::empty()
        }
    }
}

/// The parents recorded for `id` from the paths `paths[..n]`: for each path
/// with that id and at least one tile, in order, the ids of the paths that
/// feed into it.
pub open spec fn parents_upto(paths: Seq<PathDefinition>, id: PathId, n: int) -> Seq<PathId>
    decreases n,
{
    if n <= 0 {
        Seq::empty()
    } else {
        parents_upto(paths, id, n - 1) + if paths[n - 1].id == id && has_tiles(paths[n - 1]) {
            feeders_upto(paths, paths[n - 1], paths.len() as int)
        } else {
            Seq::empty()
        }
    }
}

/// All parents of `id`: what `compute_parents` records for it.
pub open spec fn parents_of(paths: Seq<PathDefinition>, id: PathId) -> Seq<PathId> {
    parents_upto(paths, id, paths.len() as int)
}

/// Some path has this id.
pub open spec fn id_in(paths: Seq<PathDefinition>, id: PathId) -> bool {
    id_in_prefix(paths, id, paths.len() as int)
}

/// One of the paths `paths[..n]` has this id.
pub open spec fn id_in_prefix(paths: Seq<PathDefinition>, id: PathId, n: int) -> bool {
    exists|m: int| 0 <= m < n && #[trigger] paths[m].id == id
}

/// Index of the first path with this id, from `i` on.
pub open spec fn first_with_id(paths: Seq<PathDefinition>, id: PathId, i: int) -> Option<int>
    decreases paths.len() - i,
{
    if i < 0 || i >= paths.len() {
        None
    } else if paths[i].id == id {
        Some(i)
    } else {
        first_with_id(paths, id, i + 1)
    }
}

/// A list of distinct path ids is no longer than the list of paths.
pub proof fn lemma_distinct_ids_bound(paths: Seq<PathDefinition>, s: Seq<PathId>)
    requires
        s.no_duplicates(),
        forall|i: int| 0 <= i < s.len() ==> id_in(paths, #[trigger] s[i]),
    ensures
        s.len() <= paths.len(),
{
    broadcast use vstd::seq_lib::seq_to_set_is_finite;

    let ids = paths.map_values(|p: PathDefinition| p.id);
    s.unique_seq_to_set();
    ids.lemma_cardinality_of_set();
    assert forall|x: PathId| s.to_set().contains(x) implies ids.to_set().contains(x) by {
        let i = choose|i: int| 0 <= i < s.len() && s[i] == x;
        assert(id_in(paths, s[i]));
        let m = choose|m: int| 0 <= m < paths.len() && #[trigger] paths[m].id == x;
        assert(ids[m] == x);
    }
    vstd::set_lib::lemma_len_subset(s.to_set(), ids.to_set());
}

/// A map from a path to the paths that feed into it; only paths with at
/// least one parent have an entry.
pub struct ParentMap {
    pub entries: Vec<(PathId, Vec<PathId>)>,
}

pub open spec fn lookup_upto(entries: Seq<(PathId, Vec<PathId>)>, id: PathId, n: int) -> Option<
    Seq<PathId>,
>
    decreases n,
{
    if n <= 0 {
        None
    } else if entries[n - 1].0 == id {
        Some(entries[n - 1].1@)
    } else {
        lookup_upto(entries, id, n - 1)
    }
}

impl ParentMap {
    /// This map is what `compute_parents` gives for `paths`.
    pub open spec fn describes(self, paths: Seq<PathDefinition>) -> bool {
        &&& forall|id: PathId| #[trigger] self.lookup(id) == as_entry(parents_of(paths, id))
        &&& forall|k: int|
            0 <= k < self.entries@.len() ==> #[trigger] self.entries@[k].1@ == parents_of(
                paths,
                self.entries@[k].0,
            )
        &&& forall|k: int|
            0 <= k < self.entries@.len() ==> id_in(paths, #[trigger] self.entries@[k].0)
    }

    /// The list stored for `id`, if any.
    pub open spec fn lookup(self, id: PathId) -> Option<Seq<PathId>> {
        lookup_upto(self.entries@, id, self.entries@.len() as int)
    }

    pub fn get(&self, id: PathId) -> (r: Option<&Vec<PathId>>)
        ensures
            match r {
                Some(v) => self.lookup(id) == Some(v@),
                None => self.lookup(id) is None,
            },
    {
        let mut i = self.entries.len();
        while i > 0
            invariant
                i <= self.entries@.len(),
                self.lookup(id) == lookup_upto(self.entries@, id, i as int),
            decreases i,
        {
            if self.entries[i - 1].0 == id {
                return Some(&self.entries[i - 1].1);
            }
            i = i - 1;
        }
        None
    }

    pub fn contains_key(&self, id: PathId) -> (r: bool)
        ensures
            r == self.lookup(id) is Some,
    {
        self.get(id).is_some()
    }
}

/// The list of parents as a map entry: absent when empty.
pub open spec fn as_entry(s: Seq<PathId>) -> Option<Seq<PathId>> {
    if s.len() > 0 {
        Some(s)
    } else {
        None
    }
}

fn first_tile_of(p: &PathDefinition) -> (r: Option<Axial>)
    ensures
        r == (if has_tiles(*p) {
            Some(first_tile(*p))
        } else {
            None::<Axial>
        }),
{
    if p.tiles.len() > 0 {
        Some(p.tiles[0])
    } else {
        None
    }
}

fn last_tile_of(p: &PathDefinition) -> (r: Option<Axial>)
    ensures
        r == (if has_tiles(*p) {
            Some(last_tile(*p))
        } else {
            None::<Axial>
        }),
{
    if p.tiles.len() > 0 {
        Some(p.tiles[p.tiles.len() - 1])
    } else {
        None
    }
}

fn feeds_exec(parent: &PathDefinition, child: &PathDefinition) -> (r: bool)
    ensures
        r == feeds(*parent, *child),
{
    if parent.id == child.id {
        return false;
    }
    match (last_tile_of(parent), first_tile_of(child)) {
        (Some(a), Some(b)) => same_hex(a, b),
        _ => false,
    }
}

/// Ids of the paths feeding into `paths[c]`.
fn feeders(paths: &[PathDefinition], c: usize) -> (r: Vec<PathId>)
    requires
        c < paths@.len(),
    ensures
        r@ == feeders_upto(paths@, paths@[c as int], paths@.len() as int),
{
    let mut r: Vec<PathId> = Vec::new();
    let mut n: usize = 0;
    while n < paths.len()
        invariant
            n <= paths@.len(),
            c < paths@.len(),
            r@ == feeders_upto(paths@, paths@[c as int], n as int),
        decreases paths@.len() - n,
    {
        if feeds_exec(&paths[n], &paths[c]) {
            r.push(paths[n].id);
        } else {
            assert(r@ + Seq::<PathId>::empty() =~= r@);
        }
        n = n + 1;
    }
    r
}

/// All parents of `id` (see `parents_of`).
fn parents_list(paths: &[PathDefinition], id: PathId) -> (r: Vec<PathId>)
    ensures
        r@ == parents_of(paths@, id),
{
    let mut r: Vec<PathId> = Vec::new();
    let mut n: usize = 0;
    while n < paths.len()
        invariant
            n <= paths@.len(),
            r@ == parents_upto(paths@, id, n as int),
        decreases paths@.len() - n,
    {
        if paths[n].id == id && paths[n].tiles.len() > 0 {
            let more = feeders(paths, n);
            let mut k: usize = 0;
            let ghost base = r@;
            while k < more.len()
                invariant
                    k <= more@.len(),
                    r@ == base + more@.take(k as int),
                decreases more@.len() - k,
            {
                r.push(more[k]);
                assert(more@.take(k as int).push(more@[k as int]) =~= more@.take(k + 1));
                assert(base + more@.take(k as int).push(more@[k as int]) =~= (base + more@.take(
                    k as int,
                )).push(more@[k as int]));
                k = k + 1;
            }
            assert(more@.take(more@.len() as int) =~= more@);
        } else {
            assert(r@ + Seq::<PathId>::empty() =~= r@);
        }
        n = n + 1;
    }
    r
}

/// For every path id, the ids of the other paths whose last tile is its first
/// tile.
pub fn compute_parents(paths: &[PathDefinition]) -> (r: ParentMap)
    ensures
        r.describes(paths@),
{
    let mut entries: Vec<(PathId, Vec<PathId>)> = Vec::new();
    let mut n: usize = 0;
    while n < paths.len()
        invariant
            n <= paths@.len(),
            forall|id: PathId|
                #[trigger] lookup_upto(entries@, id, entries@.len() as int) == if exists|m: int|
                    0 <= m < n && paths@[m].id == id {
                    as_entry(parents_of(paths@, id))
                } else {
                    None
                },
            forall|k: int|
                0 <= k < entries@.len() ==> #[trigger] entries@[k].1@ == parents_of(
                    paths@,
                    entries@[k].0,
                ),
            forall|k: int|
                0 <= k < entries@.len() ==> id_in_prefix(paths@, #[trigger] entries@[k].0, n as int),
        decreases paths@.len() - n,
    {
        let id = paths[n].id;
        let mut seen = false;
        let mut m: usize = 0;
        while m < n
            invariant
                m <= n < paths@.len(),
                id == paths@[n as int].id,
                seen == exists|q: int| 0 <= q < m && paths@[q].id == id,
            decreases n - m,
        {
            if paths[m].id == id {
                seen = true;
            }
            m = m + 1;
        }
        if !seen {
            let list = parents_list(paths, id);
            if list.len() > 0 {
                let ghost old_entries = entries@;
                entries.push((id, list));
                assert forall|k: int| 0 <= k < entries@.len() implies id_in_prefix(
                    paths@,
                    #[trigger] entries@[k].0,
                    n + 1,
                ) by {
                    if k < old_entries.len() {
                        assert(entries@[k] == old_entries[k]);
                        assert(id_in_prefix(paths@, old_entries[k].0, n as int));
                        let m = choose|m: int| 0 <= m < n && #[trigger] paths@[m].id == old_entries[k].0;
                        assert(paths@[m].id == entries@[k].0);
                    } else {
                        assert(paths@[n as int].id == entries@[k].0);
                    }
                }
                assert forall|k: PathId| #[trigger]
                    lookup_upto(entries@, k, entries@.len() as int) == if exists|q: int|
                        0 <= q < n + 1 && paths@[q].id == k {
                        as_entry(parents_of(paths@, k))
                    } else {
                        None
                    } by {
                    assert(entries@.len() == old_entries.len() + 1);
                    if k != id {
                        assert(entries@.subrange(0, old_entries.len() as int) =~= old_entries);
                        lemma_lookup_prefix(entries@, old_entries, k);
                        if exists|q: int| 0 <= q < n + 1 && paths@[q].id == k {
                            let q = choose|q: int| 0 <= q < n + 1 && paths@[q].id == k;
                            assert(q != n);
                        }
                    } else {
                        assert(paths@[n as int].id == k);
                    }
                }
            } else {
                assert forall|k: int| 0 <= k < entries@.len() implies id_in_prefix(
                    paths@,
                    #[trigger] entries@[k].0,
                    n + 1,
                ) by {
                    lemma_prefix_grow(paths@, entries@[k].0, n as int);
                }
                assert forall|k: PathId| #[trigger]
                    lookup_upto(entries@, k, entries@.len() as int) == if exists|q: int|
                        0 <= q < n + 1 && paths@[q].id == k {
                        as_entry(parents_of(paths@, k))
                    } else {
                        None
                    } by {
                    if k == id {
                        assert(paths@[n as int].id == k);
                    } else if exists|q: int| 0 <= q < n + 1 && paths@[q].id == k {
                        let q = choose|q: int| 0 <= q < n + 1 && paths@[q].id == k;
                        assert(q != n);
                    }
                }
            }
        } else {
            assert forall|k: int| 0 <= k < entries@.len() implies id_in_prefix(
                paths@,
                #[trigger] entries@[k].0,
                n + 1,
            ) by {
                lemma_prefix_grow(paths@, entries@[k].0, n as int);
            }
            assert forall|k: PathId| #[trigger]
                lookup_upto(entries@, k, entries@.len() as int) == if exists|q: int|
                    0 <= q < n + 1 && paths@[q].id == k {
                    as_entry(parents_of(paths@, k))
                } else {
                    None
                } by {
                if exists|q: int| 0 <= q < n + 1 && paths@[q].id == k {
                    let q = choose|q: int| 0 <= q < n + 1 && paths@[q].id == k;
                    if q == n {
                        let w = choose|w: int| 0 <= w < n && paths@[w].id == id;
                        assert(paths@[w].id == k);
                    }
                }
            }
        }
        n = n + 1;
    }
    let ghost e = entries@;
    let r = ParentMap { entries };
    assert(r.entries@ == e);
    assert(paths@.take(paths@.len() as int) =~= paths@);
    assert forall|k: int| 0 <= k < r.entries@.len() implies #[trigger] r.entries@[k].1@
        == parents_of(paths@, r.entries@[k].0) by {
        assert(e[k] == r.entries@[k]);
    }
    assert forall|id: PathId| #[trigger] r.lookup(id) == as_entry(parents_of(paths@, id)) by {
        if !exists|m: int| 0 <= m < paths@.len() && paths@[m].id == id {
            lemma_parents_absent(paths@, id, paths@.len() as int);
        }
    }
    r
}

proof fn lemma_prefix_grow(paths: Seq<PathDefinition>, id: PathId, n: int)
    requires
        id_in_prefix(paths, id, n),
    ensures
        id_in_prefix(paths, id, n + 1),
{
    let m = choose|m: int| 0 <= m < n && #[trigger] paths[m].id == id;
    assert(paths[m].id == id);
}

proof fn lemma_lookup_prefix(e: Seq<(PathId, Vec<PathId>)>, pre: Seq<(PathId, Vec<PathId>)>, k: PathId)
    requires
        e.len() == pre.len() + 1,
        e.subrange(0, pre.len() as int) == pre,
        e.last().0 != k,
    ensures
        lookup_upto(e, k, e.len() as int) == lookup_upto(pre, k, pre.len() as int),
{
    lemma_lookup_same(e, pre, k, pre.len() as int);
}

proof fn lemma_lookup_same(e: Seq<(PathId, Vec<PathId>)>, pre: Seq<(PathId, Vec<PathId>)>, k: PathId, n: int)
    requires
        0 <= n <= pre.len(),
        pre.len() <= e.len(),
        e.subrange(0, pre.len() as int) == pre,
    ensures
        lookup_upto(e, k, n) == lookup_upto(pre, k, n),
    decreases n,
{
    if n > 0 {
        assert(e[n - 1] == pre[n - 1]);
        lemma_lookup_same(e, pre, k, n - 1);
    }
}

proof fn lemma_parents_absent(paths: Seq<PathDefinition>, id: PathId, n: int)
    requires
        0 <= n <= paths.len(),
        forall|m: int| 0 <= m < n ==> paths[m].id != id,
    ensures
        parents_upto(paths, id, n) == Seq::<PathId>::empty(),
    decreases n,
{
    if n > 0 {
        lemma_parents_absent(paths, id, n - 1);
        assert(parents_upto(paths, id, n - 1) + Seq::<PathId>::empty() =~= Seq::<PathId>::empty());
    }
}


/// `t` is a tile where `a` and `b` legitimately meet: the end of one is the
/// start of the other, or both start on it.
pub open spec fn in_junction(a: PathDefinition, b: PathDefinition, t: Axial) -> bool {
    &&& has_tiles(a)
    &&& has_tiles(b)
    &&& {
        ||| last_tile(a) == first_tile(b) && t == last_tile(a)
        ||| last_tile(b) == first_tile(a) && t == last_tile(b)
        ||| first_tile(a) == first_tile(b) && t == first_tile(a)
    }
}

/// `b` shares a tile with `a` outside their junctions.
pub open spec fn crosses(a: PathDefinition, b: PathDefinition) -> bool {
    exists|k: int|
        0 <= k < b.tiles@.len() && a.tiles@.contains(#[trigger] b.tiles@[k]) && !in_junction(
            a,
            b,
            b.tiles@[k],
        )
}

/// The crossing pairs `(paths[i], paths[j])` with `i < j < m`.
pub open spec fn exclusion_row(paths: Seq<PathDefinition>, i: int, m: int) -> Seq<(PathId, PathId)>
    decreases m - i,
{
    if m <= i + 1 {
        Seq::empty()
    } else {
        exclusion_row(paths, i, m - 1) + if crosses(paths[i], paths[m - 1]) {
            seq![(paths[i].id, paths[m - 1].id)]
        } else {
            Seq::empty()
        }
    }
}

pub open spec fn exclusions_upto(paths: Seq<PathDefinition>, n: int) -> Seq<(PathId, PathId)>
    decreases n,
{
    if n <= 0 {
        Seq::empty()
    } else {
        exclusions_upto(paths, n - 1) + exclusion_row(paths, n - 1, paths.len() as int)
    }
}

/// Every pair of paths that cross, earlier path first, in file order.
pub open spec fn exclusions_of(paths: Seq<PathDefinition>) -> Seq<(PathId, PathId)> {
    exclusions_upto(paths, paths.len() as int)
}

/// No two paths are both empty (two empty paths make the exclusion check
/// unwrap a missing tile).
pub open spec fn no_two_empty(paths: Seq<PathDefinition>) -> bool {
    forall|i: int, j: int| 0 <= i < j < paths.len() ==> has_tiles(paths[i]) || has_tiles(paths[j])
}

fn tiles_contain(tiles: &Vec<Axial>, t: Axial) -> (r: bool)
    ensures
        r == tiles@.contains(t),
{
    let mut i: usize = 0;
    while i < tiles.len()
        invariant
            i <= tiles@.len(),
            forall|k: int| 0 <= k < i ==> tiles@[k] != t,
        decreases tiles@.len() - i,
    {
        if same_hex(tiles[i], t) {
            return true;
        }
        i = i + 1;
    }
    false
}

fn in_junction_exec(a: &PathDefinition, b: &PathDefinition, t: Axial) -> (r: bool)
    ensures
        r == in_junction(*a, *b, t),
{
    match (first_tile_of(a), last_tile_of(a), first_tile_of(b), last_tile_of(b)) {
        (Some(af), Some(al), Some(bf), Some(bl)) => {
            (same_hex(al, bf) && same_hex(t, al)) || (same_hex(bl, af) && same_hex(t, bl)) || (
            same_hex(af, bf) && same_hex(t, af))
        },
        _ => false,
    }
}

fn crosses_exec(a: &PathDefinition, b: &PathDefinition) -> (r: bool)
    ensures
        r == crosses(*a, *b),
{
    let mut k: usize = 0;
    while k < b.tiles.len()
        invariant
            k <= b.tiles@.len(),
            forall|q: int|
                0 <= q < k ==> !(a.tiles@.contains(#[trigger] b.tiles@[q]) && !in_junction(
                    *a,
                    *b,
                    b.tiles@[q],
                )),
        decreases b.tiles@.len() - k,
    {
        let t = b.tiles[k];
        if tiles_contain(&a.tiles, t) && !in_junction_exec(a, b, t) {
            return true;
        }
        k = k + 1;
    }
    false
}

/// The pairs of paths that cannot both be placed because they cross
/// somewhere other than at a junction.
pub fn compute_exclusions(paths: &[PathDefinition]) -> (r: Vec<(PathId, PathId)>)
    requires
        no_two_empty(paths@),
    ensures
        r@ == exclusions_of(paths@),
{
    let mut r: Vec<(PathId, PathId)> = Vec::new();
    let mut i: usize = 0;
    while i < paths.len()
        invariant
            i <= paths@.len(),
            r@ == exclusions_upto(paths@, i as int),
        decreases paths@.len() - i,
    {
        let ghost base = r@;
        let mut j: usize = i + 1;
        assert(exclusion_row(paths@, i as int, j as int) =~= Seq::<(PathId, PathId)>::empty());
        assert(base + Seq::<(PathId, PathId)>::empty() =~= base);
        while j < paths.len()
            invariant
                i < paths@.len(),
                i + 1 <= j <= paths@.len(),
                r@ == base + exclusion_row(paths@, i as int, j as int),
            decreases paths@.len() - j,
        {
            if crosses_exec(&paths[i], &paths[j]) {
                r.push((paths[i].id, paths[j].id));
                assert(base + (exclusion_row(paths@, i as int, j as int) + seq![
                    (paths@[i as int].id, paths@[j as int].id),
                ]) =~= (base + exclusion_row(paths@, i as int, j as int)).push(
                    (paths@[i as int].id, paths@[j as int].id),
                ));
            } else {
                assert(exclusion_row(paths@, i as int, j as int) + Seq::<(PathId, PathId)>::empty()
                    =~= exclusion_row(paths@, i as int, j as int));
            }
            j = j + 1;
        }
        i = i + 1;
    }
    r
}



/// The first id of `ids[k..]` that is in `placed`.
pub open spec fn first_placed_in(ids: Seq<PathId>, placed: Seq<PathId>, k: int) -> Option<PathId>
    decreases ids.len() - k,
{
    if k < 0 || k >= ids.len() {
        None
    } else if placed.contains(ids[k]) {
        Some(ids[k])
    } else {
        first_placed_in(ids, placed, k + 1)
    }
}

proof fn lemma_first_placed_in_member(ids: Seq<PathId>, placed: Seq<PathId>, k: int)
    requires
        0 <= k,
        first_placed_in(ids, placed, k) is Some,
    ensures
        ids.contains(first_placed_in(ids, placed, k)->0),
    decreases ids.len() - k,
{
    if k < ids.len() && !placed.contains(ids[k]) {
        lemma_first_placed_in_member(ids, placed, k + 1);
    } else {
        assert(ids[k] == ids[k]);
    }
}

/// The tiles after the first one (none for an empty list).
pub open spec fn after_first(s: Seq<Axial>) -> Seq<Axial> {
    if s.len() == 0 {
        s
    } else {
        s.skip(1)
    }
}

proof fn lemma_first_with_id_found(paths: Seq<PathDefinition>, id: PathId, i: int)
    requires
        0 <= i <= paths.len(),
        exists|m: int| i <= m < paths.len() && #[trigger] paths[m].id == id,
    ensures
        first_with_id(paths, id, i) matches Some(k) && 0 <= k < paths.len() && paths[k].id == id,
    decreases paths.len() - i,
{
    if paths[i].id != id {
        let m = choose|m: int| i <= m < paths.len() && #[trigger] paths[m].id == id;
        assert(paths[m].id == id);
        lemma_first_with_id_found(paths, id, i + 1);
    }
}

proof fn lemma_feeders_are_paths(paths: Seq<PathDefinition>, child: PathDefinition, n: int, u: PathId)
    requires
        0 <= n <= paths.len(),
        feeders_upto(paths, child, n).contains(u),
    ensures
        id_in(paths, u),
    decreases n,
{
    if n > 0 {
        if feeders_upto(paths, child, n - 1).contains(u) {
            lemma_feeders_are_paths(paths, child, n - 1, u);
        } else {
            let i = choose|i: int|
                0 <= i < feeders_upto(paths, child, n).len() && feeders_upto(paths, child, n)[i]
                    == u;
            assert(i >= feeders_upto(paths, child, n - 1).len());
            assert(paths[n - 1].id == u);
        }
    }
}

proof fn lemma_parents_upto_are_paths(paths: Seq<PathDefinition>, id: PathId, n: int, u: PathId)
    requires
        0 <= n <= paths.len(),
        parents_upto(paths, id, n).contains(u),
    ensures
        id_in(paths, u),
    decreases n,
{
    if n > 0 {
        if parents_upto(paths, id, n - 1).contains(u) {
            lemma_parents_upto_are_paths(paths, id, n - 1, u);
        } else {
            let s = parents_upto(paths, id, n);
            let i = choose|i: int| 0 <= i < s.len() && s[i] == u;
            let pre = parents_upto(paths, id, n - 1);
            assert(i >= pre.len());
            let f = feeders_upto(paths, paths[n - 1], paths.len() as int);
            assert(f[i - pre.len()] == u);
            lemma_feeders_are_paths(paths, paths[n - 1], paths.len() as int, u);
        }
    }
}

/// Every recorded parent is the id of some path.
pub proof fn lemma_parents_are_paths(paths: Seq<PathDefinition>, id: PathId, u: PathId)
    requires
        parents_of(paths, id).contains(u),
    ensures
        id_in(paths, u),
{
    lemma_parents_upto_are_paths(paths, id, paths.len() as int, u);
}

fn first_path_index(paths: &[PathDefinition], id: PathId) -> (r: Option<usize>)
    ensures
        r matches Some(k) ==> first_with_id(paths@, id, 0) == Some(k as int),
        r is None ==> first_with_id(paths@, id, 0) is None,
{
    let mut i: usize = 0;
    while i < paths.len()
        invariant
            i <= paths@.len(),
            first_with_id(paths@, id, 0) == first_with_id(paths@, id, i as int),
        decreases paths@.len() - i,
    {
        if paths[i].id == id {
            return Some(i);
        }
        i = i + 1;
    }
    None
}

/// A tile edge between `a` and `b` inside one placed path: the tiles at
/// `i` and `i + 1` of path `k`, in either direction.
pub open spec fn segment_at(map: PathMap, k: int, i: int, a: Axial, b: Axial) -> bool {
    let t = map.paths@[k].tiles@;
    &&& 0 <= i < t.len() - 1
    &&& (t[i] == a && t[i + 1] == b) || (t[i] == b && t[i + 1] == a)
}

/// Path `l` starts where path `k` ends, at `t`; both are placed.
pub open spec fn junction_at(map: PathMap, k: int, l: int, t: Axial) -> bool {
    &&& k != l
    &&& map.is_placed_spec(map.paths@[k].id)
    &&& map.is_placed_spec(map.paths@[l].id)
    &&& has_tiles(map.paths@[k])
    &&& has_tiles(map.paths@[l])
    &&& last_tile(map.paths@[k]) == t
    &&& first_tile(map.paths@[l]) == t
}

/// `a` and `b` are joined on the drawn network: consecutive tiles of a
/// placed path, or (with `a == b`) the tile where one placed path ends and
/// another starts.
pub open spec fn connects(map: PathMap, a: Axial, b: Axial) -> bool {
    ||| exists|k: int, i: int|
        0 <= k < map.paths@.len() && map.is_placed_spec(map.paths@[k].id) && #[trigger] segment_at(
            map,
            k,
            i,
            a,
            b,
        )
    ||| a == b && exists|k: int, l: int|
        0 <= k < map.paths@.len() && 0 <= l < map.paths@.len() && #[trigger] junction_at(
            map,
            k,
            l,
            a,
        )
}

/// No two placed paths are both empty (the junction check unwraps their
/// missing end tiles).
pub open spec fn no_two_placed_empty(map: PathMap) -> bool {
    forall|i: int, j: int|
        0 <= i < j < map.paths@.len() && map.is_placed_spec(map.paths@[i].id)
            && map.is_placed_spec(map.paths@[j].id) ==> has_tiles(map.paths@[i]) || has_tiles(
            map.paths@[j],
        )
}

fn add_edge(edges: &mut Vec<(Axial, Axial)>, e: (Axial, Axial))
    ensures
        forall|x: (Axial, Axial)| #[trigger]
            final(edges)@.contains(x) <==> (old(edges)@.contains(x) || x == e),
        old(edges)@.no_duplicates() ==> final(edges)@.no_duplicates(),
{
    let mut i: usize = 0;
    while i < edges.len()
        invariant
            i <= edges@.len(),
            forall|k: int| 0 <= k < i ==> edges@[k] != e,
        decreases edges@.len() - i,
    {
        if same_hex(edges[i].0, e.0) && same_hex(edges[i].1, e.1) {
            return;
        }
        i = i + 1;
    }
    let ghost before = edges@;
    edges.push(e);
    proof {
        assert forall|x: (Axial, Axial)| #[trigger]
            edges@.contains(x) <==> (before.contains(x) || x == e) by {
            if before.contains(x) {
                let k = choose|k: int| 0 <= k < before.len() && before[k] == x;
                assert(edges@[k] == x);
            }
            if x == e {
                assert(edges@[before.len() as int] == e);
            }
            if edges@.contains(x) && x != e {
                let k = choose|k: int| 0 <= k < edges@.len() && edges@[k] == x;
                assert(before[k] == x);
            }
        }
    }
}


fn junction_tile(map: &PathMap, k: usize, l: usize) -> (r: Option<Axial>)
    requires
        k < map.paths@.len(),
        l < map.paths@.len(),
    ensures
        r matches Some(t) ==> junction_at(*map, k as int, l as int, t),
        r is None ==> forall|t: Axial| !junction_at(*map, k as int, l as int, t),
        forall|t: Axial| junction_at(*map, k as int, l as int, t) ==> r == Some(t),
{
    if k == l || !map.is_placed(map.paths[k].id) || !map.is_placed(map.paths[l].id) {
        return None;
    }
    match (last_tile_of(&map.paths[k]), first_tile_of(&map.paths[l])) {
        (Some(end), Some(start)) => {
            if same_hex(end, start) {
                Some(end)
            } else {
                None
            }
        },
        _ => None,
    }
}

/// Every edge of the drawn network, in both directions, each once.
pub fn collect_connected_tiles(path_map: &PathMap) -> (r: Vec<(Axial, Axial)>)
    requires
        no_two_placed_empty(*path_map),
    ensures
        r@.no_duplicates(),
        forall|e: (Axial, Axial)| #[trigger] r@.contains(e) <==> connects(*path_map, e.0, e.1),
{
    let mut edges: Vec<(Axial, Axial)> = Vec::new();
    let mut k: usize = 0;
    while k < path_map.paths.len()
        invariant
            k <= path_map.paths@.len(),
            edges@.no_duplicates(),
            forall|e: (Axial, Axial)| #[trigger]
                edges@.contains(e) <==> exists|q: int, i: int|
                    0 <= q < k && path_map.is_placed_spec(path_map.paths@[q].id) && #[trigger] segment_at(
                        *path_map,
                        q,
                        i,
                        e.0,
                        e.1,
                    ),
        decreases path_map.paths@.len() - k,
    {
        let p = &path_map.paths[k];
        if path_map.is_placed(p.id) {
            let mut i: usize = 0;
            while i < p.tiles.len() && i + 1 < p.tiles.len()
                invariant
                    k < path_map.paths@.len(),
                    *p == path_map.paths@[k as int],
                    path_map.is_placed_spec(p.id),
                    edges@.no_duplicates(),
                    forall|e: (Axial, Axial)| #[trigger]
                        edges@.contains(e) <==> (exists|q: int, j: int|
                            0 <= q < k && path_map.is_placed_spec(path_map.paths@[q].id)
                                && #[trigger] segment_at(*path_map, q, j, e.0, e.1)) || (exists|
                            j: int,
                        | 0 <= j < i && #[trigger] segment_at(*path_map, k as int, j, e.0, e.1)),
                decreases p.tiles@.len() - i,
            {
                let a = p.tiles[i];
                let b = p.tiles[i + 1];
                add_edge(&mut edges, (a, b));
                add_edge(&mut edges, (b, a));
                proof {
                    assert forall|e: (Axial, Axial)| #[trigger]
                        edges@.contains(e) <==> (exists|q: int, j: int|
                            0 <= q < k && path_map.is_placed_spec(path_map.paths@[q].id)
                                && #[trigger] segment_at(*path_map, q, j, e.0, e.1)) || (exists|
                            j: int,
                        | 0 <= j < i + 1 && #[trigger] segment_at(*path_map, k as int, j, e.0, e.1)) by {
                        if e == (a, b) || e == (b, a) {
                            assert(segment_at(*path_map, k as int, i as int, e.0, e.1));
                        }
                        if exists|j: int|
                            0 <= j < i + 1 && #[trigger] segment_at(*path_map, k as int, j, e.0, e.1) {
                            let j = choose|j: int|
                                0 <= j < i + 1 && #[trigger] segment_at(
                                    *path_map,
                                    k as int,
                                    j,
                                    e.0,
                                    e.1,
                                );
                            if j == i {
                                assert(e == (a, b) || e == (b, a));
                            }
                        }
                    }
                }
                i = i + 1;
            }
            proof {
                assert forall|e: (Axial, Axial)| #[trigger]
                    edges@.contains(e) <==> exists|q: int, j: int|
                        0 <= q < k + 1 && path_map.is_placed_spec(path_map.paths@[q].id)
                            && #[trigger] segment_at(*path_map, q, j, e.0, e.1) by {
                    if exists|q: int, j: int|
                        0 <= q < k + 1 && path_map.is_placed_spec(path_map.paths@[q].id)
                            && #[trigger] segment_at(*path_map, q, j, e.0, e.1) {
                        let (q, j) = choose|q: int, j: int|
                            0 <= q < k + 1 && path_map.is_placed_spec(path_map.paths@[q].id)
                                && #[trigger] segment_at(*path_map, q, j, e.0, e.1);
                        if q == k {
                            assert(0 <= j < i);
                        }
                    }
                }
            }
        } else {
            proof {
                assert forall|e: (Axial, Axial)| #[trigger]
                    edges@.contains(e) <==> exists|q: int, j: int|
                        0 <= q < k + 1 && path_map.is_placed_spec(path_map.paths@[q].id)
                            && #[trigger] segment_at(*path_map, q, j, e.0, e.1) by {
                    if exists|q: int, j: int|
                        0 <= q < k + 1 && path_map.is_placed_spec(path_map.paths@[q].id)
                            && #[trigger] segment_at(*path_map, q, j, e.0, e.1) {
                        let (q, j) = choose|q: int, j: int|
                            0 <= q < k + 1 && path_map.is_placed_spec(path_map.paths@[q].id)
                                && #[trigger] segment_at(*path_map, q, j, e.0, e.1);
                        assert(q != k);
                    }
                }
            }
        }
        k = k + 1;
    }
    let ghost segments = edges@;
    let mut k: usize = 0;
    while k < path_map.paths.len()
        invariant
            k <= path_map.paths@.len(),
            edges@.no_duplicates(),
            forall|e: (Axial, Axial)| #[trigger]
                segments.contains(e) <==> exists|q: int, j: int|
                    0 <= q < path_map.paths@.len() && path_map.is_placed_spec(path_map.paths@[q].id)
                        && #[trigger] segment_at(*path_map, q, j, e.0, e.1),
            forall|e: (Axial, Axial)| #[trigger]
                edges@.contains(e) <==> (segments.contains(e) || (e.0 == e.1 && exists|q: int, l: int|
                    0 <= q < k && 0 <= l < path_map.paths@.len() && #[trigger] junction_at(
                        *path_map,
                        q,
                        l,
                        e.0,
                    ))),
        decreases path_map.paths@.len() - k,
    {
        let mut l: usize = 0;
        while l < path_map.paths.len()
            invariant
                k < path_map.paths@.len(),
                l <= path_map.paths@.len(),
                edges@.no_duplicates(),
                forall|e: (Axial, Axial)| #[trigger]
                    edges@.contains(e) <==> (segments.contains(e) || (e.0 == e.1 && ((exists|
                        q: int,
                        m: int,
                    |
                        0 <= q < k && 0 <= m < path_map.paths@.len() && #[trigger] junction_at(
                            *path_map,
                            q,
                            m,
                            e.0,
                        )) || (exists|m: int|
                        0 <= m < l && #[trigger] junction_at(*path_map, k as int, m, e.0))))),
            decreases path_map.paths@.len() - l,
        {
            let ghost before = edges@;
            let found = junction_tile(path_map, k, l);
            match found {
                Some(t) => {
                    add_edge(&mut edges, (t, t));
                },
                None => {},
            }
            proof {
                assert forall|e: (Axial, Axial)| #[trigger]
                    edges@.contains(e) <==> (segments.contains(e) || (e.0 == e.1 && ((exists|
                        q: int,
                        m: int,
                    |
                        0 <= q < k && 0 <= m < path_map.paths@.len() && #[trigger] junction_at(
                            *path_map,
                            q,
                            m,
                            e.0,
                        )) || (exists|m: int|
                        0 <= m < l + 1 && #[trigger] junction_at(*path_map, k as int, m, e.0))))) by {
                    if e.0 == e.1 && exists|m: int|
                        0 <= m < l + 1 && #[trigger] junction_at(*path_map, k as int, m, e.0) {
                        let m = choose|m: int|
                            0 <= m < l + 1 && #[trigger] junction_at(*path_map, k as int, m, e.0);
                        if m == l {
                            assert(found == Some(e.0));
                        }
                    }
                    if edges@.contains(e) && !before.contains(e) {
                        assert(found == Some(e.0));
                        assert(junction_at(*path_map, k as int, l as int, e.0));
                    }
                }
            }
            l = l + 1;
        }
        proof {
            assert forall|e: (Axial, Axial)| #[trigger]
                edges@.contains(e) <==> (segments.contains(e) || (e.0 == e.1 && exists|q: int, m: int|
                    0 <= q < k + 1 && 0 <= m < path_map.paths@.len() && #[trigger] junction_at(
                        *path_map,
                        q,
                        m,
                        e.0,
                    ))) by {
                if e.0 == e.1 && exists|q: int, m: int|
                    0 <= q < k + 1 && 0 <= m < path_map.paths@.len() && #[trigger] junction_at(
                        *path_map,
                        q,
                        m,
                        e.0,
                    ) {
                    let (q, m) = choose|q: int, m: int|
                        0 <= q < k + 1 && 0 <= m < path_map.paths@.len() && #[trigger] junction_at(
                            *path_map,
                            q,
                            m,
                            e.0,
                        );
                    if q == k {
                        assert(junction_at(*path_map, k as int, m, e.0));
                    }
                }
            }
        }
        k = k + 1;
    }
    edges
}

/// Every exclusion pairs two different paths, the earlier one first.
proof fn lemma_exclusion_row_pairs(paths: Seq<PathDefinition>, i: int, m: int, k: int)
    requires
        0 <= i,
        m <= paths.len(),
        0 <= k < exclusion_row(paths, i, m).len(),
    ensures
        exists|j: int|
            i < j < m && exclusion_row(paths, i, m)[k] == (paths[i].id, #[trigger] paths[j].id),
    decreases m - i,
{
    let prev = exclusion_row(paths, i, m - 1);
    if k < prev.len() {
        lemma_exclusion_row_pairs(paths, i, m - 1, k);
        let j = choose|j: int| i < j < m - 1 && prev[k] == (paths[i].id, #[trigger] paths[j].id);
        assert(exclusion_row(paths, i, m)[k] == prev[k]);
        assert(i < j < m && exclusion_row(paths, i, m)[k] == (paths[i].id, paths[j].id));
    } else {
        assert(exclusion_row(paths, i, m)[k] == (paths[i].id, paths[m - 1].id));
    }
}

proof fn lemma_exclusions_pairs(paths: Seq<PathDefinition>, n: int, k: int)
    requires
        0 <= n <= paths.len(),
        0 <= k < exclusions_upto(paths, n).len(),
    ensures
        exists|i: int, j: int|
            0 <= i < j < paths.len() && exclusions_upto(paths, n)[k] == (
                #[trigger] paths[i].id,
                #[trigger] paths[j].id,
            ),
    decreases n,
{
    let prev = exclusions_upto(paths, n - 1);
    if k < prev.len() {
        lemma_exclusions_pairs(paths, n - 1, k);
        let (i, j) = choose|i: int, j: int|
            0 <= i < j < paths.len() && prev[k] == (#[trigger] paths[i].id, #[trigger] paths[j].id);
        assert(exclusions_upto(paths, n)[k] == prev[k]);
        assert(exclusions_upto(paths, n)[k] == (paths[i].id, paths[j].id));
    } else {
        let row = exclusion_row(paths, n - 1, paths.len() as int);
        lemma_exclusion_row_pairs(paths, n - 1, paths.len() as int, k - prev.len());
        let j = choose|j: int|
            n - 1 < j < paths.len() && row[k - prev.len()] == (paths[n - 1].id, #[trigger] paths[j].id);
        assert(exclusions_upto(paths, n)[k] == row[k - prev.len()]);
        assert(exclusions_upto(paths, n)[k] == (paths[n - 1].id, paths[j].id));
    }
}

/// No two paths share an id.
pub open spec fn ids_distinct(paths: Seq<PathDefinition>) -> bool {
    forall|i: int, j: int| 0 <= i < j < paths.len() ==> paths[i].id != paths[j].id
}

impl PathMap {
    /// No two placed paths cross.
    pub open spec fn placed_compatible(self) -> bool {
        let ex = exclusions_of(self.paths@);
        forall|k: int|
            0 <= k < ex.len() ==> !(self.is_placed_spec(#[trigger] ex[k].0) && self.is_placed_spec(
                ex[k].1,
            ))
    }

    /// Every placed path but the root continues a placed path.
    pub open spec fn placed_connected(self) -> bool {
        forall|id: PathId|
            #[trigger] self.is_placed_spec(id) && id != PathId(0) ==> self.has_placed_parent(id)
    }
}

/// Placing only placeable paths keeps the placed network free of crossings
/// and connected to the root (with distinct path ids).
pub proof fn lemma_place_placeable(map: PathMap, id: PathId, after: PathMap)
    requires
        ids_distinct(map.paths@),
        map.placed_compatible(),
        map.placed_connected(),
        map.placeable_spec(id),
        after.paths@ == map.paths@,
        after.placed@ == map.placed@.push(id),
    ensures
        after.placed_compatible(),
        after.placed_connected(),
{
    assert forall|x: PathId| #[trigger] after.is_placed_spec(x) <==> (map.is_placed_spec(x) || x
        == id) by {
        if after.placed@.contains(x) && x != id {
            let k = choose|k: int| 0 <= k < after.placed@.len() && after.placed@[k] == x;
            assert(map.placed@[k] == x);
        }
        if map.placed@.contains(x) {
            let k = choose|k: int| 0 <= k < map.placed@.len() && map.placed@[k] == x;
            assert(after.placed@[k] == x);
        }
        if x == id {
            assert(after.placed@[map.placed@.len() as int] == id);
        }
    }
    let ex = exclusions_of(map.paths@);
    assert forall|k: int| 0 <= k < ex.len() implies !(after.is_placed_spec(#[trigger] ex[k].0)
        && after.is_placed_spec(ex[k].1)) by {
        lemma_exclusions_pairs(map.paths@, map.paths@.len() as int, k);
        let (i, j) = choose|i: int, j: int|
            0 <= i < j < map.paths@.len() && ex[k] == (
                #[trigger] map.paths@[i].id,
                #[trigger] map.paths@[j].id,
            );
        assert(ex[k].0 != ex[k].1);
        if ex[k].0 == id && map.is_placed_spec(ex[k].1) {
            assert(map.excluded_by_placed(id));
        }
        if ex[k].1 == id && map.is_placed_spec(ex[k].0) {
            assert(map.excluded_by_placed(id));
        }
    }
    assert forall|x: PathId| #[trigger] after.is_placed_spec(x) && x != PathId(0) implies after.has_placed_parent(
        x,
    ) by {
        let ps = parents_of(map.paths@, x);
        assert(map.has_placed_parent(x));
        let k = choose|k: int| 0 <= k < ps.len() && map.is_placed_spec(ps[k]);
        assert(after.is_placed_spec(ps[k]));
    }
}

/// The whole path network, with the set of paths placed so far.
pub struct PathMap {
    pub paths: Vec<PathDefinition>,
    /// Placed path ids (duplicates carry no meaning: it is read as a set).
    pub placed: Vec<PathId>,
}

/// Whether `id` is in the list.
pub fn ids_contain(ids: &Vec<PathId>, id: PathId) -> (r: bool)
    ensures
        r == ids@.contains(id),
{
    let mut i: usize = 0;
    while i < ids.len()
        invariant
            i <= ids@.len(),
            forall|k: int| 0 <= k < i ==> ids@[k] != id,
        decreases ids@.len() - i,
    {
        if ids[i] == id {
            return true;
        }
        i = i + 1;
    }
    false
}

/// Sum of the group sizes `groups[..n]`.
pub open spec fn group_total(groups: Seq<PathEnemyGroup>, n: int) -> int
    decreases n,
{
    if n <= 0 {
        0
    } else {
        group_total(groups, n - 1) + groups[n - 1].count
    }
}

pub proof fn lemma_group_total_mono(groups: Seq<PathEnemyGroup>, a: int, b: int)
    requires
        0 <= a <= b <= groups.len(),
    ensures
        0 <= group_total(groups, a) <= group_total(groups, b),
    decreases b,
{
    if a < b {
        lemma_group_total_mono(groups, a, b - 1);
    } else {
        lemma_group_total_nonneg(groups, a);
    }
}

pub proof fn lemma_group_total_nonneg(groups: Seq<PathEnemyGroup>, a: int)
    requires
        0 <= a <= groups.len(),
    ensures
        0 <= group_total(groups, a),
    decreases a,
{
    if a > 0 {
        lemma_group_total_nonneg(groups, a - 1);
    }
}

impl PathMap {
    pub open spec fn is_placed_spec(self, id: PathId) -> bool {
        self.placed@.contains(id)
    }

    /// A placed path crosses `id`.
    pub open spec fn excluded_by_placed(self, id: PathId) -> bool {
        let ex = exclusions_of(self.paths@);
        exists|k: int|
            0 <= k < ex.len() && ((ex[k].0 == id && self.is_placed_spec(ex[k].1)) || (ex[k].1 == id
                && self.is_placed_spec(ex[k].0)))
    }

    /// One of the paths feeding into `id` is placed.
    pub open spec fn has_placed_parent(self, id: PathId) -> bool {
        let ps = parents_of(self.paths@, id);
        exists|k: int| 0 <= k < ps.len() && self.is_placed_spec(ps[k])
    }

    /// A path can be placed when it is not yet placed, crosses no placed
    /// path, and is the root path (id 0) or continues a placed path.
    pub open spec fn placeable_spec(self, id: PathId) -> bool {
        &&& !self.is_placed_spec(id)
        &&& !self.excluded_by_placed(id)
        &&& (id == PathId(0) || self.has_placed_parent(id))
    }

    pub open spec fn placeable_upto(self, n: int) -> Seq<PathId>
        decreases n,
    {
        if n <= 0 {
            Seq::empty()
        } else {
            self.placeable_upto(n - 1) + if self.placeable_spec(self.paths@[n - 1].id) {
                seq![self.paths@[n - 1].id]
            } else {
                Seq::empty()
            }
        }
    }

    /// A placed path with tiles that no other placed path continues.
    pub open spec fn is_terminal(self, p: PathDefinition) -> bool {
        &&& self.is_placed_spec(p.id)
        &&& has_tiles(p)
        &&& !exists|k: int|
            0 <= k < self.paths@.len() && #[trigger] self.paths@[k].id != p.id
                && self.is_placed_spec(self.paths@[k].id) && has_tiles(self.paths@[k]) && first_tile(
                self.paths@[k],
            ) == last_tile(p)
    }

    pub open spec fn terminal_upto(self, n: int) -> Seq<PathId>
        decreases n,
    {
        if n <= 0 {
            Seq::empty()
        } else {
            self.terminal_upto(n - 1) + if self.is_terminal(self.paths@[n - 1]) {
                seq![self.paths@[n - 1].id]
            } else {
                Seq::empty()
            }
        }
    }

    /// Ids of the terminal paths, in file order.
    pub open spec fn terminals(self) -> Seq<PathId> {
        self.terminal_upto(self.paths@.len() as int)
    }

    /// Enemies sent by the paths `paths[..n]` whose id is a terminal id.
    pub open spec fn enemy_total_upto(self, n: int) -> int
        decreases n,
    {
        if n <= 0 {
            0
        } else {
            self.enemy_total_upto(n - 1) + if self.terminals().contains(self.paths@[n - 1].id) {
                group_total(self.paths@[n - 1].enemies@, self.paths@[n - 1].enemies@.len() as int)
            } else {
                0
            }
        }
    }

    pub open spec fn enemy_total(self) -> int {
        self.enemy_total_upto(self.paths@.len() as int)
    }

    pub proof fn lemma_enemy_total_mono(self, a: int, b: int)
        requires
            0 <= a <= b <= self.paths@.len(),
        ensures
            0 <= self.enemy_total_upto(a) <= self.enemy_total_upto(b),
        decreases b,
    {
        if a < b {
            self.lemma_enemy_total_mono(a, b - 1);
            let g = self.paths@[b - 1].enemies@;
            lemma_group_total_nonneg(g, g.len() as int);
        } else {
            self.lemma_enemy_total_nonneg(a);
        }
    }

    pub proof fn lemma_enemy_total_nonneg(self, a: int)
        requires
            0 <= a <= self.paths@.len(),
        ensures
            0 <= self.enemy_total_upto(a),
        decreases a,
    {
        if a > 0 {
            self.lemma_enemy_total_nonneg(a - 1);
            let g = self.paths@[a - 1].enemies@;
            lemma_group_total_nonneg(g, g.len() as int);
        }
    }

    /// A network with the given paths and nothing placed.
    pub fn from_definitions(definitions: Vec<PathDefinition>) -> (r: Self)
        ensures
            r.paths@ == definitions@,
            r.placed@ == Seq::<PathId>::empty(),
    {
        PathMap { paths: definitions, placed: Vec::new() }
    }

    pub fn is_placed(&self, id: PathId) -> (r: bool)
        ensures
            r == self.is_placed_spec(id),
    {
        ids_contain(&self.placed, id)
    }

    pub fn is_placeable(&self, id: PathId) -> (r: bool)
        requires
            no_two_empty(self.paths@),
        ensures
            r == self.placeable_spec(id),
    {
        if self.is_placed(id) {
            return false;
        }
        let exclusions = compute_exclusions(self.paths.as_slice());
        let mut k: usize = 0;
        while k < exclusions.len()
            invariant
                k <= exclusions@.len(),
                exclusions@ == exclusions_of(self.paths@),
                forall|q: int|
                    0 <= q < k ==> !((exclusions@[q].0 == id && self.is_placed_spec(exclusions@[q].1))
                        || (exclusions@[q].1 == id && self.is_placed_spec(exclusions@[q].0))),
            decreases exclusions@.len() - k,
        {
            let (a, b) = exclusions[k];
            if (a == id && self.is_placed(b)) || (b == id && self.is_placed(a)) {
                return false;
            }
            k = k + 1;
        }
        assert(!self.excluded_by_placed(id));
        if id == PathId(0) {
            return true;
        }
        let parents = compute_parents(self.paths.as_slice());
        match parents.get(id) {
            None => false,
            Some(ps) => {
                let mut k: usize = 0;
                while k < ps.len()
                    invariant
                        k <= ps@.len(),
                        ps@ == parents_of(self.paths@, id),
                        !self.excluded_by_placed(id),
                        !self.is_placed_spec(id),
                        forall|q: int| 0 <= q < k ==> !self.is_placed_spec(ps@[q]),
                    decreases ps@.len() - k,
                {
                    if self.is_placed(ps[k]) {
                        return true;
                    }
                    k = k + 1;
                }
                false
            },
        }
    }

    /// The ids of the paths that can be placed now, in file order.
    pub fn placeable_paths(&self) -> (r: Vec<PathId>)
        requires
            no_two_empty(self.paths@),
        ensures
            r@ == self.placeable_upto(self.paths@.len() as int),
    {
        let mut r: Vec<PathId> = Vec::new();
        let mut n: usize = 0;
        while n < self.paths.len()
            invariant
                n <= self.paths@.len(),
                no_two_empty(self.paths@),
                r@ == self.placeable_upto(n as int),
            decreases self.paths@.len() - n,
        {
            if self.is_placeable(self.paths[n].id) {
                r.push(self.paths[n].id);
            } else {
                assert(r@ + Seq::<PathId>::empty() =~= r@);
            }
            n = n + 1;
        }
        r
    }

    /// The placed paths at the ends of the network: no other placed path
    /// starts where they end.
    pub fn terminal_paths(&self) -> (r: Vec<PathId>)
        ensures
            r@ == self.terminals(),
    {
        let mut r: Vec<PathId> = Vec::new();
        let mut n: usize = 0;
        while n < self.paths.len()
            invariant
                n <= self.paths@.len(),
                r@ == self.terminal_upto(n as int),
            decreases self.paths@.len() - n,
        {
            let p = &self.paths[n];
            let mut terminal = false;
            if self.is_placed(p.id) {
                match last_tile_of(p) {
                    None => {},
                    Some(end) => {
                        let mut continued = false;
                        let mut k: usize = 0;
                        while k < self.paths.len()
                            invariant
                                k <= self.paths@.len(),
                                n < self.paths@.len(),
                                *p == self.paths@[n as int],
                                has_tiles(*p),
                                end == last_tile(*p),
                                continued == exists|q: int|
                                    0 <= q < k && #[trigger] self.paths@[q].id != p.id
                                        && self.is_placed_spec(self.paths@[q].id) && has_tiles(
                                        self.paths@[q],
                                    ) && first_tile(self.paths@[q]) == last_tile(*p),
                            decreases self.paths@.len() - k,
                        {
                            let o = &self.paths[k];
                            if o.id != p.id && self.is_placed(o.id) {
                                match first_tile_of(o) {
                                    Some(start) => {
                                        if same_hex(start, end) {
                                            continued = true;
                                        }
                                    },
                                    None => {},
                                }
                            }
                            k = k + 1;
                        }
                        terminal = !continued;
                    },
                }
            }
            if terminal {
                r.push(p.id);
            } else {
                assert(r@ + Seq::<PathId>::empty() =~= r@);
            }
            n = n + 1;
        }
        r
    }

    /// The number of enemies sent each round: the group sizes of every path
    /// whose id is terminal.
    pub fn total_enemy_count(&self) -> (r: u32)
        requires
            self.enemy_total() <= u32::MAX,
        ensures
            r == self.enemy_total(),
    {
        let terminals = self.terminal_paths();
        let mut total: u32 = 0;
        let mut n: usize = 0;
        while n < self.paths.len()
            invariant
                n <= self.paths@.len(),
                terminals@ == self.terminals(),
                self.enemy_total() <= u32::MAX,
                total == self.enemy_total_upto(n as int),
            decreases self.paths@.len() - n,
        {
            let p = &self.paths[n];
            if ids_contain(&terminals, p.id) {
                let mut g: usize = 0;
                let ghost before = total as int;
                while g < p.enemies.len()
                    invariant
                        g <= p.enemies@.len(),
                        n < self.paths@.len(),
                        *p == self.paths@[n as int],
                        terminals@.contains(p.id),
                        terminals@ == self.terminals(),
                        self.enemy_total() <= u32::MAX,
                        before == self.enemy_total_upto(n as int),
                        total == before + group_total(p.enemies@, g as int),
                    decreases p.enemies@.len() - g,
                {
                    proof {
                        lemma_group_total_mono(p.enemies@, g + 1, p.enemies@.len() as int);
                        self.lemma_enemy_total_mono(n + 1, self.paths@.len() as int);
                    }
                    total = total + p.enemies[g].count;
                    g = g + 1;
                }
            }
            n = n + 1;
        }
        total
    }

    /// The first placed parent of `id`.
    pub open spec fn placed_parent(self, id: PathId) -> Option<PathId> {
        first_placed_in(parents_of(self.paths@, id), self.placed@, 0)
    }

    /// The walk from `current` through first placed parents, after the ids
    /// `seen`: it stops at an id already seen or at one with no placed parent.
    pub open spec fn route_walk(self, current: PathId, seen: Seq<PathId>, fuel: nat) -> Seq<PathId>
        decreases fuel,
    {
        if fuel == 0 || seen.contains(current) {
            seen
        } else {
            match self.placed_parent(current) {
                Some(p) => self.route_walk(p, seen.push(current), (fuel - 1) as nat),
                None => seen.push(current),
            }
        }
    }

    /// The ids from `terminal` back towards the root, each the first placed
    /// parent of the one before.
    pub open spec fn route_chain(self, terminal: PathId) -> Seq<PathId> {
        self.route_walk(terminal, Seq::empty(), (self.paths@.len() + 1) as nat)
    }

    /// The tiles of the first path with this id.
    pub open spec fn tiles_of(self, id: PathId) -> Seq<Axial> {
        match first_with_id(self.paths@, id, 0) {
            Some(i) => self.paths@[i].tiles@,
            None => Seq::empty(),
        }
    }

    /// The tiles of the paths `chain[..n]` laid end to end: the first whole,
    /// each later one without its first tile (the junction it shares).
    pub open spec fn route_tiles_upto(self, chain: Seq<PathId>, n: int) -> Seq<Axial>
        decreases n,
    {
        if n <= 0 {
            Seq::empty()
        } else if n == 1 {
            self.tiles_of(chain[0])
        } else {
            self.route_tiles_upto(chain, n - 1) + after_first(self.tiles_of(chain[n - 1]))
        }
    }

    /// The route enemies walk to reach `terminal`: its chain of placed
    /// ancestors from the root down, tile by tile.
    pub open spec fn full_route(self, terminal: PathId) -> Seq<Axial> {
        let c = self.route_chain(terminal).reverse();
        self.route_tiles_upto(c, c.len() as int)
    }

    fn placed_parent_exec(&self, parents: &ParentMap, id: PathId) -> (r: Option<PathId>)
        requires
            parents.describes(self.paths@),
        ensures
            r == self.placed_parent(id),
    {
        match parents.get(id) {
            None => {
                proof {
                    assert(parents.lookup(id) == as_entry(parents_of(self.paths@, id)));
                }
                None
            },
            Some(ps) => {
                proof {
                    assert(parents.lookup(id) == as_entry(parents_of(self.paths@, id)));
                }
                let mut k: usize = 0;
                while k < ps.len()
                    invariant
                        k <= ps@.len(),
                        ps@ == parents_of(self.paths@, id),
                        first_placed_in(ps@, self.placed@, 0) == first_placed_in(
                            ps@,
                            self.placed@,
                            k as int,
                        ),
                    decreases ps@.len() - k,
                {
                    if self.is_placed(ps[k]) {
                        return Some(ps[k]);
                    }
                    k = k + 1;
                }
                None
            },
        }
    }

    /// The tiles of the path with this id (the first one, if several share
    /// it).
    pub fn path_tiles(&self, id: PathId) -> (r: &Vec<Axial>)
        requires
            id_in(self.paths@, id),
        ensures
            r@ == self.tiles_of(id),
    {
        proof {
            let m = choose|m: int| 0 <= m < self.paths@.len() && #[trigger] self.paths@[m].id == id;
            assert(self.paths@[m].id == id);
            lemma_first_with_id_found(self.paths@, id, 0);
        }
        match first_path_index(self.paths.as_slice(), id) {
            Some(m) => &self.paths[m].tiles,
            None => {
                proof {
                    assert(false);
                }
                &self.paths[0].tiles
            },
        }
    }

    /// The tiles enemies walk to reach the terminal path `terminal_id`: the
    /// chain of its first placed parents, root first, joined end to end.
    pub fn full_route_tiles(&self, terminal_id: PathId) -> (r: Vec<Axial>)
        requires
            id_in(self.paths@, terminal_id),
        ensures
            r@ == self.full_route(terminal_id),
    {
        let parents = compute_parents(self.paths.as_slice());
        let mut chain: Vec<PathId> = Vec::new();
        let mut current = terminal_id;
        let ghost total = (self.paths@.len() + 1) as nat;
        loop
            invariant_except_break
                self.route_walk(current, chain@, (total - chain@.len()) as nat) == self.route_chain(
                    terminal_id,
                ),
                id_in(self.paths@, current),
            invariant
                parents.describes(self.paths@),
                total == self.paths@.len() + 1,
                chain@.no_duplicates(),
                forall|i: int| 0 <= i < chain@.len() ==> id_in(self.paths@, #[trigger] chain@[i]),
                chain@.len() <= self.paths@.len(),
            ensures
                chain@ == self.route_chain(terminal_id),
            decreases total - chain@.len(),
        {
            if ids_contain(&chain, current) {
                break;
            }
            let ghost old_chain = chain@;
            chain.push(current);
            proof {
                assert forall|a: int, b: int|
                    0 <= a < b < chain@.len() implies chain@[a] != chain@[b] by {
                    if b == old_chain.len() {
                        assert(old_chain[a] == chain@[a]);
                        assert(old_chain.contains(chain@[a]));
                    }
                }
                assert forall|i: int| 0 <= i < chain@.len() implies id_in(
                    self.paths@,
                    #[trigger] chain@[i],
                ) by {
                    if i < old_chain.len() {
                        assert(old_chain[i] == chain@[i]);
                    }
                }
                lemma_distinct_ids_bound(self.paths@, chain@);
            }
            match self.placed_parent_exec(&parents, current) {
                Some(p) => {
                    proof {
                        lemma_first_placed_in_member(parents_of(self.paths@, current), self.placed@, 0);
                        lemma_parents_are_paths(self.paths@, current, p);
                    }
                    current = p;
                },
                None => {
                    break;
                },
            }
        }
        let mut tiles: Vec<Axial> = Vec::new();
        let ghost rev = chain@.reverse();
        let mut i: usize = 0;
        while i < chain.len()
            invariant
                i <= chain@.len(),
                rev == chain@.reverse(),
                forall|j: int| 0 <= j < chain@.len() ==> id_in(self.paths@, #[trigger] chain@[j]),
                tiles@ == self.route_tiles_upto(rev, i as int),
            decreases chain@.len() - i,
        {
            let id = chain[chain.len() - 1 - i];
            assert(id == rev[i as int]);
            proof {
                assert(id_in(self.paths@, chain@[chain@.len() - 1 - i]));
                let m = choose|m: int| 0 <= m < self.paths@.len() && #[trigger] self.paths@[m].id == id;
                assert(self.paths@[m].id == id);
                lemma_first_with_id_found(self.paths@, id, 0);
            }
            let idx = first_path_index(self.paths.as_slice(), id);
            match idx {
                Some(m) => {
                    let path_tiles = &self.paths[m].tiles;
                    let ghost base = tiles@;
                    let start: usize = if i == 0 { 0 } else { 1 };
                    let mut j: usize = start;
                    if i > 0 && path_tiles.len() > 0 {
                        assert(path_tiles@.skip(1).take(0) =~= Seq::<Axial>::empty());
                    }
                    while j < path_tiles.len()
                        invariant
                            start <= j,
                            start == 0 || start == 1,
                            j <= path_tiles@.len() || (start == 1 && j == 1 && path_tiles@.len() == 0),
                            tiles@ == base + (if start == 0 {
                                path_tiles@.take(j as int)
                            } else if path_tiles@.len() == 0 {
                                Seq::<Axial>::empty()
                            } else {
                                path_tiles@.skip(1).take(j - 1)
                            }),
                        decreases path_tiles@.len() - j,
                    {
                        let ghost before = tiles@;
                        tiles.push(path_tiles[j]);
                        proof {
                            if start == 0 {
                                assert(path_tiles@.take(j as int).push(path_tiles@[j as int])
                                    =~= path_tiles@.take(j + 1));
                            } else {
                                assert(path_tiles@.skip(1).take(j - 1).push(path_tiles@[j as int])
                                    =~= path_tiles@.skip(1).take(j as int));
                            }
                        }
                        j = j + 1;
                    }
                    proof {
                        if start == 0 {
                            assert(path_tiles@.take(path_tiles@.len() as int) =~= path_tiles@);
                        } else if path_tiles@.len() > 0 {
                            assert(path_tiles@.skip(1).take(path_tiles@.len() - 1)
                                =~= path_tiles@.skip(1));
                        }
                        assert(self.tiles_of(id) == path_tiles@);
                        if i == 0 {
                            assert(base =~= Seq::<Axial>::empty());
                            assert(tiles@ =~= path_tiles@);
                            assert(rev[0] == id);
                            assert(self.route_tiles_upto(rev, 1) == self.tiles_of(rev[0]));
                            assert(tiles@ =~= self.route_tiles_upto(rev, 1));
                        } else {
                            assert(tiles@ =~= self.route_tiles_upto(rev, i + 1));
                        }
                    }
                },
                None => {},
            }
            i = i + 1;
        }
        tiles
    }

    /// Empties the placed set, then places path 0 when the map has one.
    pub fn reset_placed(&mut self)
        ensures
            final(self).paths@ == old(self).paths@,
            final(self).placed@ == if exists|k: int|
                0 <= k < old(self).paths@.len() && old(self).paths@[k].id == PathId(0) {
                seq![PathId(0)]
            } else {
                Seq::<PathId>::empty()
            },
            ids_distinct(old(self).paths@) ==> final(self).placed_compatible()
                && final(self).placed_connected(),
    {
        self.placed.clear();
        let mut found = false;
        let mut k: usize = 0;
        while k < self.paths.len()
            invariant
                k <= self.paths@.len(),
                found == exists|q: int| 0 <= q < k && self.paths@[q].id == PathId(0),
            decreases self.paths@.len() - k,
        {
            if self.paths[k].id == PathId(0) {
                found = true;
            }
            k = k + 1;
        }
        if found {
            self.placed.push(PathId(0));
            assert(self.placed@ =~= seq![PathId(0)]);
        }
        proof {
            if ids_distinct(self.paths@) {
                let ex = exclusions_of(self.paths@);
                assert forall|k: int| 0 <= k < ex.len() implies !(self.is_placed_spec(
                    #[trigger] ex[k].0,
                ) && self.is_placed_spec(ex[k].1)) by {
                    lemma_exclusions_pairs(self.paths@, self.paths@.len() as int, k);
                    let (i, j) = choose|i: int, j: int|
                        0 <= i < j < self.paths@.len() && ex[k] == (
                            #[trigger] self.paths@[i].id,
                            #[trigger] self.paths@[j].id,
                        );
                    assert(ex[k].0 != ex[k].1);
                    if self.is_placed_spec(ex[k].0) {
                        assert(ex[k].0 == PathId(0));
                    }
                    if self.is_placed_spec(ex[k].1) {
                        assert(ex[k].1 == PathId(0));
                    }
                }
            }
        }
    }

    /// Whether a placed path has `cell` among its tiles (towers cannot be
    /// built there).
    pub fn placed_covers(&self, cell: Axial) -> (r: bool)
        ensures
            r == exists|k: int|
                0 <= k < self.paths@.len() && self.is_placed_spec(#[trigger] self.paths@[k].id)
                    && self.paths@[k].tiles@.contains(cell),
    {
        let mut k: usize = 0;
        while k < self.paths.len()
            invariant
                k <= self.paths@.len(),
                forall|q: int|
                    0 <= q < k ==> !(self.is_placed_spec(#[trigger] self.paths@[q].id)
                        && self.paths@[q].tiles@.contains(cell)),
            decreases self.paths@.len() - k,
        {
            if self.is_placed(self.paths[k].id) && tiles_contain(&self.paths[k].tiles, cell) {
                return true;
            }
            k = k + 1;
        }
        false
    }

    /// The walk through first placed parents, from any point of it: it
    /// keeps what was seen, follows first placed parents, and stops only at
    /// a path with no placed parent or whose placed parent it already holds.
    proof fn lemma_route_walk(self, current: PathId, seen: Seq<PathId>, fuel: nat)
        requires
            seen.no_duplicates(),
            forall|x: int| 0 <= x < seen.len() ==> id_in(self.paths@, #[trigger] seen[x]),
            id_in(self.paths@, current),
            seen.len() + fuel >= self.paths@.len() + 1,
            seen.len() > 0 ==> self.placed_parent(seen.last()) == Some(current),
            forall|j: int|
                0 <= j < seen.len() - 1 ==> self.placed_parent(#[trigger] seen[j]) == Some(
                    seen[j + 1],
                ),
        ensures
            ({
                let w = self.route_walk(current, seen, fuel);
                &&& w.len() >= 1
                &&& w.len() >= seen.len()
                &&& w.subrange(0, seen.len() as int) == seen
                &&& !seen.contains(current) ==> w.len() > seen.len() && w[seen.len() as int]
                    == current
                &&& w.no_duplicates()
                &&& forall|j: int|
                    0 <= j < w.len() - 1 ==> self.placed_parent(#[trigger] w[j]) == Some(w[j + 1])
                &&& match self.placed_parent(w.last()) {
                    None => true,
                    Some(p) => w.contains(p),
                }
            }),
        decreases fuel,
    {
        let w = self.route_walk(current, seen, fuel);
        if fuel == 0 {
            lemma_distinct_ids_bound(self.paths@, seen);
            assert(false);
        } else if seen.contains(current) {
            assert(w == seen);
            assert(w.subrange(0, seen.len() as int) =~= seen);
            assert(seen.len() > 0);
        } else {
            let next = seen.push(current);
            assert forall|x: int| 0 <= x < next.len() implies id_in(self.paths@, #[trigger] next[x]) by {
                if x < seen.len() {
                    assert(next[x] == seen[x]);
                }
            }
            assert forall|j: int| 0 <= j < next.len() - 1 implies self.placed_parent(
                #[trigger] next[j],
            ) == Some(next[j + 1]) by {
                assert(next[j] == seen[j]);
                if j < seen.len() - 1 {
                    assert(next[j + 1] == seen[j + 1]);
                } else {
                    assert(seen[j] == seen.last());
                }
            }
            match self.placed_parent(current) {
                Some(p) => {
                    lemma_first_placed_in_member(parents_of(self.paths@, current), self.placed@, 0);
                    lemma_parents_are_paths(self.paths@, current, p);
                    self.lemma_route_walk(p, next, (fuel - 1) as nat);
                    assert(next.last() == current);
                    assert(w.subrange(0, next.len() as int) == next);
                    assert(w[seen.len() as int] == w.subrange(0, next.len() as int)[seen.len() as int]);
                    assert(w.subrange(0, seen.len() as int) =~= w.subrange(
                        0,
                        next.len() as int,
                    ).subrange(0, seen.len() as int));
                    assert(next.subrange(0, seen.len() as int) =~= seen);
                },
                None => {
                    assert(w == next);
                    assert(w.subrange(0, seen.len() as int) =~= seen);
                    assert(w.last() == current);
                    assert(w.no_duplicates());
                },
            }
        }
    }

    /// The route chain of a path starts at that path, goes on to each path's
    /// first placed parent, never repeats a path, and stops only where the
    /// last path has no placed parent or its placed parent is already on the
    /// chain; the route's tiles begin with those of that last path.
    pub proof fn lemma_route_chain(self, terminal: PathId)
        requires
            id_in(self.paths@, terminal),
        ensures
            ({
                let c = self.route_chain(terminal);
                &&& c.len() >= 1
                &&& c[0] == terminal
                &&& c.no_duplicates()
                &&& forall|j: int|
                    0 <= j < c.len() - 1 ==> self.placed_parent(#[trigger] c[j]) == Some(c[j + 1])
                &&& match self.placed_parent(c.last()) {
                    None => true,
                    Some(p) => c.contains(p),
                }
                &&& self.full_route(terminal).len() >= self.tiles_of(c.last()).len()
                &&& self.full_route(terminal).subrange(0, self.tiles_of(c.last()).len() as int)
                    == self.tiles_of(c.last())
            }),
    {
        self.lemma_route_walk(terminal, Seq::empty(), (self.paths@.len() + 1) as nat);
        let c = self.route_chain(terminal);
        let r = c.reverse();
        assert(r[0] == c.last());
        self.lemma_route_tiles_prefix(r, r.len() as int);
    }

    /// The tiles laid end to end begin with the whole first path.
    proof fn lemma_route_tiles_prefix(self, chain: Seq<PathId>, n: int)
        requires
            1 <= n <= chain.len(),
        ensures
            self.route_tiles_upto(chain, n).len() >= self.tiles_of(chain[0]).len(),
            self.route_tiles_upto(chain, n).subrange(0, self.tiles_of(chain[0]).len() as int)
                == self.tiles_of(chain[0]),
        decreases n,
    {
        let first = self.tiles_of(chain[0]);
        if n == 1 {
            assert(self.route_tiles_upto(chain, 1).subrange(0, first.len() as int) =~= first);
        } else {
            self.lemma_route_tiles_prefix(chain, n - 1);
            let prev = self.route_tiles_upto(chain, n - 1);
            let all = self.route_tiles_upto(chain, n);
            assert(all == prev + after_first(self.tiles_of(chain[n - 1])));
            assert(all.subrange(0, first.len() as int) =~= prev.subrange(0, first.len() as int));
        }
    }

    /// Every id that `placeable_upto` lists is placeable.
    pub proof fn lemma_placeable_upto_member(self, n: int, k: int)
        requires
            0 <= n <= self.paths@.len(),
            0 <= k < self.placeable_upto(n).len(),
        ensures
            self.placeable_spec(self.placeable_upto(n)[k]),
        decreases n,
    {
        let prev = self.placeable_upto(n - 1);
        if k < prev.len() {
            self.lemma_placeable_upto_member(n - 1, k);
            assert(self.placeable_upto(n)[k] == prev[k]);
        }
    }

    /// Places the first placeable path (in file order) that has `cell` among
    /// its tiles, and returns its id; places nothing when there is none.
    pub fn place_at(&mut self, cell: Axial) -> (r: Option<PathId>)
        requires
            no_two_empty(old(self).paths@),
        ensures
            final(self).paths@ == old(self).paths@,
            r == first_covering(
                old(self).placeable_upto(old(self).paths@.len() as int),
                old(self).paths@,
                cell,
            ),
            r matches Some(id) ==> old(self).placeable_spec(id) && final(self).placed@ == old(
                self,
            ).placed@.push(id),
            r is None ==> final(self).placed@ == old(self).placed@,
            ids_distinct(old(self).paths@) && old(self).placed_compatible()
                && old(self).placed_connected() ==> final(self).placed_compatible()
                && final(self).placed_connected(),
    {
        let candidates = self.placeable_paths();
        let ghost ids = candidates@;
        let mut i: usize = 0;
        while i < candidates.len()
            invariant
                i <= ids.len(),
                ids == candidates@,
                *self == *old(self),
                ids == self.placeable_upto(self.paths@.len() as int),
                forall|k: int| 0 <= k < i ==> !id_covers(self.paths@, #[trigger] ids[k], cell),
            decreases ids.len() - i,
        {
            let id = candidates[i];
            let mut j: usize = 0;
            let mut covers = false;
            while j < self.paths.len()
                invariant
                    j <= self.paths@.len(),
                    *self == *old(self),
                    covers == exists|q: int|
                        0 <= q < j && #[trigger] self.paths@[q].id == id && self.paths@[q].tiles@.contains(
                            cell,
                        ),
                decreases self.paths@.len() - j,
            {
                if self.paths[j].id == id && tiles_contain(&self.paths[j].tiles, cell) {
                    covers = true;
                }
                j = j + 1;
            }
            if covers {
                proof {
                    self.lemma_placeable_upto_member(self.paths@.len() as int, i as int);
                    lemma_first_covering_at(ids, self.paths@, cell, i as int);
                }
                let ghost before = *self;
                self.placed.push(id);
                proof {
                    if ids_distinct(before.paths@) && before.placed_compatible()
                        && before.placed_connected() {
                        lemma_place_placeable(before, id, *self);
                    }
                }
                return Some(id);
            }
            i = i + 1;
        }
        proof {
            lemma_first_covering_none(ids, self.paths@, cell);
        }
        None
    }
}

/// Some path with this id has `cell` among its tiles.
pub open spec fn id_covers(paths: Seq<PathDefinition>, id: PathId, cell: Axial) -> bool {
    exists|q: int| 0 <= q < paths.len() && #[trigger] paths[q].id == id && paths[q].tiles@.contains(cell)
}

/// The first id of `ids` whose path covers `cell`.
pub open spec fn first_covering(ids: Seq<PathId>, paths: Seq<PathDefinition>, cell: Axial) -> Option<
    PathId,
>
    decreases ids.len(),
{
    if ids.len() == 0 {
        None
    } else if id_covers(paths, ids[0], cell) {
        Some(ids[0])
    } else {
        first_covering(ids.drop_first(), paths, cell)
    }
}

proof fn lemma_first_covering_at(ids: Seq<PathId>, paths: Seq<PathDefinition>, cell: Axial, i: int)
    requires
        0 <= i < ids.len(),
        id_covers(paths, ids[i], cell),
        forall|k: int| 0 <= k < i ==> !id_covers(paths, #[trigger] ids[k], cell),
    ensures
        first_covering(ids, paths, cell) == Some(ids[i]),
    decreases i,
{
    if i > 0 {
        assert(!id_covers(paths, ids[0], cell));
        let rest = ids.drop_first();
        assert forall|k: int| 0 <= k < i - 1 implies !id_covers(paths, #[trigger] rest[k], cell) by {
            assert(rest[k] == ids[k + 1]);
        }
        assert(rest[i - 1] == ids[i]);
        lemma_first_covering_at(rest, paths, cell, i - 1);
    }
}

proof fn lemma_first_covering_none(ids: Seq<PathId>, paths: Seq<PathDefinition>, cell: Axial)
    requires
        forall|k: int| 0 <= k < ids.len() ==> !id_covers(paths, #[trigger] ids[k], cell),
    ensures
        first_covering(ids, paths, cell) is None,
    decreases ids.len(),
{
    if ids.len() > 0 {
        assert(!id_covers(paths, ids[0], cell));
        let rest = ids.drop_first();
        assert forall|k: int| 0 <= k < rest.len() implies !id_covers(paths, #[trigger] rest[k], cell) by {
            assert(rest[k] == ids[k + 1]);
        }
        lemma_first_covering_none(rest, paths, cell);
    }
}

} // verus!
