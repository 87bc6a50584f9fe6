use vstd::prelude::*;

use crate::hex::{are_hex_adjacent, hex_adjacent};
use crate::paths::{
    compute_parents, first_with_id, id_in, id_in_prefix, ids_contain, lemma_distinct_ids_bound,
    parents_of, parents_upto, ParentMap, PathDefinition, PathId,
};
use crate::text::{append_chars, append_str, chars_to_string, decimal, push_decimal, str_to_chars};

verus! {

/// `u` is one of the recorded parents of `v`: finishing `u` unlocks `v`.
pub open spec fn edge(paths: Seq<PathDefinition>, u: PathId, v: PathId) -> bool {
    parents_of(paths, v).contains(u)
}

/// The `i`-th step of the walk `c` follows an edge.
pub open spec fn walk_step(paths: Seq<PathDefinition>, c: Seq<PathId>, i: int) -> bool {
    edge(paths, c[i], c[i + 1])
}

/// `c` is a closed walk of the unlock graph: each id is a parent of the next
/// one, and the last is a parent of the first.
pub open spec fn is_cycle(paths: Seq<PathDefinition>, c: Seq<PathId>) -> bool {
    &&& c.len() > 0
    &&& forall|i: int| 0 <= i < c.len() - 1 ==> #[trigger] walk_step(paths, c, i)
    &&& edge(paths, c.last(), c[0])
}

/// The unlock graph of `paths` has a cycle.
pub open spec fn has_cycle_spec(paths: Seq<PathDefinition>) -> bool {
    exists|c: Seq<PathId>| is_cycle(paths, c)
}

/// Every successor of `order[i]` comes earlier in `order`.
pub open spec fn finished_in_order(paths: Seq<PathDefinition>, order: Seq<PathId>) -> bool {
    forall|i: int, v: PathId|
        0 <= i < order.len() && #[trigger] edge(paths, order[i], v) ==> exists|j: int|
            0 <= j < i && order[j] == v
}

/// The state of the depth-first search: `visited` is what the search has
/// entered, `stack` the walk it is in, and `order` the ids it has finished,
/// in the order it finished them.
pub open spec fn search_state(
    paths: Seq<PathDefinition>,
    visited: Seq<PathId>,
    stack: Seq<PathId>,
    order: Seq<PathId>,
) -> bool {
    &&& visited.no_duplicates()
    &&& forall|i: int| 0 <= i < visited.len() ==> id_in(paths, #[trigger] visited[i])
    &&& stack.no_duplicates()
    &&& order.no_duplicates()
    &&& forall|x: PathId| #[trigger]
        visited.contains(x) <==> (stack.contains(x) || order.contains(x))
    &&& forall|x: PathId| #[trigger] order.contains(x) ==> !stack.contains(x)
    &&& forall|i: int| 0 <= i < stack.len() - 1 ==> #[trigger] walk_step(paths, stack, i)
    &&& finished_in_order(paths, order)
}

proof fn lemma_parents_nonempty(paths: Seq<PathDefinition>, v: PathId, n: int)
    requires
        0 <= n <= paths.len(),
        parents_upto(paths, v, n).len() > 0,
    ensures
        id_in_prefix(paths, v, n),
    decreases n,
{
    if n > 0 {
        if parents_upto(paths, v, n - 1).len() > 0 {
            lemma_parents_nonempty(paths, v, n - 1);
            let m = choose|m: int| 0 <= m < n - 1 && #[trigger] paths[m].id == v;
            assert(paths[m].id == v);
        } else {
            assert(paths[n - 1].id == v);
        }
    }
}

/// The target of an edge is the id of some path.
proof fn lemma_edge_target(paths: Seq<PathDefinition>, u: PathId, v: PathId)
    requires
        edge(paths, u, v),
    ensures
        id_in(paths, v),
{
    lemma_parents_nonempty(paths, v, paths.len() as int);
}

/// Meeting an id that is on the walk closes a cycle.
proof fn lemma_stack_cycle(paths: Seq<PathDefinition>, stack: Seq<PathId>, id: PathId)
    requires
        stack.contains(id),
        forall|i: int| 0 <= i < stack.len() - 1 ==> #[trigger] walk_step(paths, stack, i),
        edge(paths, stack.last(), id),
    ensures
        has_cycle_spec(paths),
{
    let j = choose|j: int| 0 <= j < stack.len() && stack[j] == id;
    let c = stack.subrange(j, stack.len() as int);
    assert forall|i: int| 0 <= i < c.len() - 1 implies #[trigger] walk_step(paths, c, i) by {
        assert(walk_step(paths, stack, j + i));
        assert(c[i] == stack[j + i]);
        assert(c[i + 1] == stack[j + i + 1]);
    }
    assert(c.last() == stack.last());
    assert(is_cycle(paths, c));
}

pub open spec fn position_in(order: Seq<PathId>, x: PathId) -> int {
    choose|j: int| 0 <= j < order.len() && order[j] == x
}

proof fn lemma_descend(paths: Seq<PathDefinition>, order: Seq<PathId>, c: Seq<PathId>, k: int)
    requires
        order.no_duplicates(),
        finished_in_order(paths, order),
        forall|i: int| 0 <= i < c.len() ==> order.contains(#[trigger] c[i]),
        forall|i: int| 0 <= i < c.len() - 1 ==> #[trigger] walk_step(paths, c, i),
        0 <= k < c.len(),
    ensures
        0 <= position_in(order, c[k]),
        position_in(order, c[k]) + k <= position_in(order, c[0]),
    decreases k,
{
    assert(order.contains(c[k]));
    if k > 0 {
        lemma_descend(paths, order, c, k - 1);
        assert(order.contains(c[k - 1]));
        let p = position_in(order, c[k - 1]);
        assert(walk_step(paths, c, k - 1));
        assert(edge(paths, order[p], c[k]));
        let j = choose|j: int| 0 <= j < p && order[j] == c[k];
        let q = position_in(order, c[k]);
        assert(order[q] == c[k]);
        assert(j == q);
    }
}

/// Once every path id is finished in an order where successors finish first,
/// the graph has no cycle.
proof fn lemma_no_cycle(paths: Seq<PathDefinition>, order: Seq<PathId>)
    requires
        order.no_duplicates(),
        finished_in_order(paths, order),
        forall|m: int| 0 <= m < paths.len() ==> order.contains(#[trigger] paths[m].id),
    ensures
        !has_cycle_spec(paths),
{
    assert forall|c: Seq<PathId>| !is_cycle(paths, c) by {
        if is_cycle(paths, c) {
            assert forall|i: int| 0 <= i < c.len() implies order.contains(#[trigger] c[i]) by {
                if i == 0 {
                    lemma_edge_target(paths, c.last(), c[0]);
                } else {
                    assert(walk_step(paths, c, i - 1));
                    lemma_edge_target(paths, c[i - 1], c[i]);
                }
                let m = choose|m: int| 0 <= m < paths.len() && #[trigger] paths[m].id == c[i];
                assert(order.contains(paths[m].id));
            }
            let last = c.len() - 1;
            lemma_descend(paths, order, c, last);
            assert(c[last] == c.last());
            let p = position_in(order, c.last());
            assert(order[p] == c.last());
            assert(edge(paths, order[p], c[0]));
            let j = choose|j: int| 0 <= j < p && order[j] == c[0];
            assert(order.contains(c[0]));
            assert(order[position_in(order, c[0])] == c[0]);
            assert(j == position_in(order, c[0]));
        }
    }
}

proof fn lemma_lookup_some(
    entries: Seq<(PathId, Vec<PathId>)>,
    id: PathId,
    n: int,
)
    requires
        0 <= n <= entries.len(),
        crate::paths::lookup_upto(entries, id, n) is Some,
    ensures
        exists|k: int| 0 <= k < n && (#[trigger] entries[k]).0 == id,
    decreases n,
{
    if entries[n - 1].0 != id {
        lemma_lookup_some(entries, id, n - 1);
        let k = choose|k: int| 0 <= k < n - 1 && (#[trigger] entries[k]).0 == id;
        assert(entries[k].0 == id);
    } else {
        assert(entries[n - 1].0 == id);
    }
}

/// The ids whose parents include `id`.
fn children_of(paths: &[PathDefinition], parents: &ParentMap, id: PathId) -> (r: Vec<PathId>)
    requires
        parents.describes(paths@),
    ensures
        forall|v: PathId| #[trigger] r@.contains(v) <==> edge(paths@, id, v),
{
    let mut r: Vec<PathId> = Vec::new();
    let mut k: usize = 0;
    while k < parents.entries.len()
        invariant
            k <= parents.entries@.len(),
            parents.describes(paths@),
            forall|v: PathId| #[trigger]
                r@.contains(v) <==> exists|q: int|
                    0 <= q < k && parents.entries@[q].0 == v && parents.entries@[q].1@.contains(
                        id,
                    ),
        decreases parents.entries@.len() - k,
    {
        if ids_contain(&parents.entries[k].1, id) {
            let ghost before = r@;
            r.push(parents.entries[k].0);
            assert forall|v: PathId| #[trigger]
                r@.contains(v) <==> exists|q: int|
                    0 <= q < k + 1 && parents.entries@[q].0 == v
                        && parents.entries@[q].1@.contains(id) by {
                if r@.contains(v) && v != parents.entries@[k as int].0 {
                    let i = choose|i: int| 0 <= i < r@.len() && r@[i] == v;
                    assert(before[i] == v);
                    assert(before.contains(v));
                }
                if exists|q: int|
                    0 <= q < k + 1 && parents.entries@[q].0 == v
                        && parents.entries@[q].1@.contains(id) {
                    let q = choose|q: int|
                        0 <= q < k + 1 && parents.entries@[q].0 == v
                            && parents.entries@[q].1@.contains(id);
                    if q < k {
                        assert(before.contains(v));
                        let i = choose|i: int| 0 <= i < before.len() && before[i] == v;
                        assert(r@[i] == v);
                    } else {
                        assert(r@[before.len() as int] == v);
                    }
                }
            }
        }
        k = k + 1;
    }
    assert forall|v: PathId| #[trigger] r@.contains(v) <==> edge(paths@, id, v) by {
        if r@.contains(v) {
            let q = choose|q: int|
                0 <= q < parents.entries@.len() && parents.entries@[q].0 == v
                    && parents.entries@[q].1@.contains(id);
            assert(parents.entries@[q].1@ == parents_of(paths@, parents.entries@[q].0));
        }
        if edge(paths@, id, v) {
            assert(parents.lookup(v) == crate::paths::as_entry(parents_of(paths@, v)));
            lemma_lookup_some(parents.entries@, v, parents.entries@.len() as int);
            let q = choose|q: int|
                0 <= q < parents.entries@.len() && (#[trigger] parents.entries@[q]).0 == v;
            assert(parents.entries@[q].1@ == parents_of(paths@, parents.entries@[q].0));
        }
    }
    r
}

fn dfs(
    paths: &[PathDefinition],
    parents: &ParentMap,
    id: PathId,
    visited: &mut Vec<PathId>,
    in_stack: &mut Vec<PathId>,
    order: &mut Ghost<Seq<PathId>>,
) -> (r: bool)
    requires
        parents.describes(paths@),
        search_state(paths@, old(visited)@, old(in_stack)@, old(order)@),
        id_in(paths@, id),
        old(in_stack)@.len() > 0 ==> edge(paths@, old(in_stack)@.last(), id),
    ensures
        r ==> has_cycle_spec(paths@),
        !r ==> search_state(paths@, final(visited)@, final(in_stack)@, final(order)@),
        !r ==> final(in_stack)@ == old(in_stack)@,
        !r ==> final(order)@.contains(id),
        !r ==> forall|x: PathId| #[trigger] old(order)@.contains(x) ==> final(order)@.contains(x),
        !r ==> final(visited)@.len() >= old(visited)@.len(),
    decreases paths@.len() - old(visited)@.len(),
{
    if ids_contain(in_stack, id) {
        proof {
            lemma_stack_cycle(paths@, in_stack@, id);
        }
        return true;
    }
    if ids_contain(visited, id) {
        return false;
    }
    let ghost old_stack = in_stack@;
    let ghost old_order = order@;
    let ghost old_len = visited@.len();
    visited.push(id);
    in_stack.push(id);
    proof {
        assert forall|i: int| 0 <= i < visited@.len() implies id_in(
            paths@,
            #[trigger] visited@[i],
        ) by {
            if i < old_len {
                assert(visited@[i] == old(visited)@[i]);
            }
        }
        assert forall|x: PathId| #[trigger]
            visited@.contains(x) <==> (in_stack@.contains(x) || order@.contains(x)) by {
            if visited@.contains(x) && x != id {
                let i = choose|i: int| 0 <= i < visited@.len() && visited@[i] == x;
                assert(old(visited)@[i] == x);
                assert(old(visited)@.contains(x));
                if old_stack.contains(x) {
                    let s = choose|s: int| 0 <= s < old_stack.len() && old_stack[s] == x;
                    assert(in_stack@[s] == x);
                }
            }
            if in_stack@.contains(x) && x != id {
                let i = choose|i: int| 0 <= i < in_stack@.len() && in_stack@[i] == x;
                assert(old_stack[i] == x);
                assert(old(visited)@.contains(x));
                let w = choose|w: int| 0 <= w < old_len && old(visited)@[w] == x;
                assert(visited@[w] == x);
            }
            if order@.contains(x) {
                assert(old(visited)@.contains(x));
                let w = choose|w: int| 0 <= w < old_len && old(visited)@[w] == x;
                assert(visited@[w] == x);
            }
            if x == id {
                assert(visited@[old_len as int] == id);
                assert(in_stack@[old_stack.len() as int] == id);
            }
        }
        assert forall|x: PathId| #[trigger] order@.contains(x) implies !in_stack@.contains(x) by {
            if in_stack@.contains(x) {
                let i = choose|i: int| 0 <= i < in_stack@.len() && in_stack@[i] == x;
                if i < old_stack.len() {
                    assert(old_stack[i] == x);
                } else {
                    assert(visited@.contains(id));
                }
            }
        }
        assert forall|i: int| 0 <= i < in_stack@.len() - 1 implies #[trigger] walk_step(
            paths@,
            in_stack@,
            i,
        ) by {
            if i < old_stack.len() - 1 {
                assert(walk_step(paths@, old_stack, i));
            } else {
                assert(in_stack@[i] == old_stack.last());
            }
        }
        assert(visited@.no_duplicates()) by {
            assert forall|a: int, b: int|
                0 <= a < b < visited@.len() implies visited@[a] != visited@[b] by {
                if b == old_len {
                    assert(old(visited)@[a] == visited@[a]);
                }
            }
        }
        assert(in_stack@.no_duplicates()) by {
            assert forall|a: int, b: int|
                0 <= a < b < in_stack@.len() implies in_stack@[a] != in_stack@[b] by {
                if b == old_stack.len() {
                    assert(old_stack[a] == in_stack@[a]);
                }
            }
        }
        assert(search_state(paths@, visited@, in_stack@, order@));
    }
    let kids = children_of(paths, parents, id);
    let mut k: usize = 0;
    while k < kids.len()
        invariant
            k <= kids@.len(),
            parents.describes(paths@),
            search_state(paths@, visited@, in_stack@, order@),
            in_stack@ == old_stack.push(id),
            !old_stack.contains(id),
            visited@.len() >= old_len + 1,
            old_len == old(visited)@.len(),
            old_order == old(order)@,
            forall|x: PathId| #[trigger] old_order.contains(x) ==> order@.contains(x),
            forall|v: PathId| #[trigger] kids@.contains(v) <==> edge(paths@, id, v),
            forall|q: int| 0 <= q < k ==> order@.contains(#[trigger] kids@[q]),
        decreases kids@.len() - k,
    {
        proof {
            assert(kids@.contains(kids@[k as int]));
            lemma_edge_target(paths@, id, kids@[k as int]);
            lemma_distinct_ids_bound(paths@, visited@);
            assert(in_stack@.last() == id);
        }
        if dfs(paths, parents, kids[k], visited, in_stack, order) {
            return true;
        }
        k = k + 1;
    }
    in_stack.pop();
    proof {
        assert(in_stack@ =~= old_stack);
        let before = order@;
        assert(before.len() == order@.len());
        assert(!before.contains(id)) by {
            assert(in_stack@.push(id).contains(id)) by {
                assert(old_stack.push(id)[old_stack.len() as int] == id);
            }
        }
    }
    let ghost before = order@;
    *order = Ghost(order@.push(id));
    proof {
        assert forall|x: PathId| #[trigger]
            visited@.contains(x) <==> (in_stack@.contains(x) || order@.contains(x)) by {
            if order@.contains(x) && x != id {
                let i = choose|i: int| 0 <= i < order@.len() && order@[i] == x;
                assert(before[i] == x);
            }
            if before.contains(x) {
                let i = choose|i: int| 0 <= i < before.len() && before[i] == x;
                assert(order@[i] == x);
            }
            if x == id {
                assert(order@[before.len() as int] == id);
                assert(old_stack.push(id)[old_stack.len() as int] == id);
            }
            if in_stack@.contains(x) {
                let i = choose|i: int| 0 <= i < in_stack@.len() && in_stack@[i] == x;
                assert(old_stack.push(id)[i] == x);
            }
        }
        assert forall|x: PathId| #[trigger] order@.contains(x) implies !in_stack@.contains(x) by {
            if x != id {
                let i = choose|i: int| 0 <= i < order@.len() && order@[i] == x;
                assert(before[i] == x);
                assert(before.contains(x));
                if in_stack@.contains(x) {
                    let s = choose|s: int| 0 <= s < in_stack@.len() && in_stack@[s] == x;
                    assert(old_stack.push(id)[s] == x);
                }
            }
        }
        assert forall|i: int| 0 <= i < in_stack@.len() - 1 implies #[trigger] walk_step(
            paths@,
            in_stack@,
            i,
        ) by {
            assert(walk_step(paths@, old_stack.push(id), i));
        }
        assert(order@.no_duplicates()) by {
            assert forall|a: int, b: int|
                0 <= a < b < order@.len() implies order@[a] != order@[b] by {
                if b == before.len() {
                    assert(before[a] == order@[a]);
                    assert(before.contains(order@[a]));
                }
            }
        }
        assert(in_stack@.no_duplicates()) by {
            assert forall|a: int, b: int|
                0 <= a < b < in_stack@.len() implies in_stack@[a] != in_stack@[b] by {
                assert(old_stack.push(id)[a] == in_stack@[a]);
                assert(old_stack.push(id)[b] == in_stack@[b]);
            }
        }
        assert forall|i: int, v: PathId|
            0 <= i < order@.len() && #[trigger] edge(paths@, order@[i], v) implies exists|j: int|
                0 <= j < i && order@[j] == v by {
            if i < before.len() {
                assert(order@[i] == before[i]);
                let j = choose|j: int| 0 <= j < i && before[j] == v;
                assert(order@[j] == v);
            } else {
                assert(kids@.contains(v));
                let q = choose|q: int| 0 <= q < kids@.len() && kids@[q] == v;
                assert(before.contains(kids@[q]));
                let j = choose|j: int| 0 <= j < before.len() && before[j] == v;
                assert(order@[j] == v);
            }
        }
        assert(order@.contains(id)) by {
            assert(order@[before.len() as int] == id);
        }
        assert forall|x: PathId| #[trigger] old(order)@.contains(x) implies order@.contains(x) by {
            let i = choose|i: int| 0 <= i < before.len() && before[i] == x;
            assert(order@[i] == x);
        }
    }
    false
}

/// Whether the unlock graph (each path to the paths that continue it) has a
/// cycle, by a depth-first search from every path.
pub fn has_cycle(paths: &[PathDefinition], parents: &ParentMap) -> (r: bool)
    requires
        parents.describes(paths@),
    ensures
        r == has_cycle_spec(paths@),
{
    let mut visited: Vec<PathId> = Vec::new();
    let mut in_stack: Vec<PathId> = Vec::new();
    let mut order: Ghost<Seq<PathId>> = Ghost(Seq::empty());
    let mut n: usize = 0;
    while n < paths.len()
        invariant
            n <= paths@.len(),
            parents.describes(paths@),
            search_state(paths@, visited@, in_stack@, order@),
            in_stack@.len() == 0,
            forall|m: int| 0 <= m < n ==> order@.contains(#[trigger] paths@[m].id),
        decreases paths@.len() - n,
    {
        proof {
            assert(paths@[n as int].id == paths@[n as int].id);
            assert(id_in(paths@, paths@[n as int].id));
        }
        let ghost before = order@;
        if dfs(paths, parents, paths[n].id, &mut visited, &mut in_stack, &mut order) {
            return true;
        }
        proof {
            assert forall|m: int| 0 <= m < n + 1 implies order@.contains(#[trigger] paths@[m].id) by {
                if m < n {
                    assert(before.contains(paths@[m].id));
                }
            }
        }
        n = n + 1;
    }
    proof {
        lemma_no_cycle(paths@, order@);
    }
    false
}

/// What is wrong with a map's path network.
#[derive(Clone, Copy, PartialEq, Eq, Debug, Structural)]
pub enum PathError {
    /// The path has no tiles.
    EmptyPath(PathId),
    /// Tile `tile_index` of the path is not next to the tile before it.
    NonAdjacentTile { path_id: PathId, tile_index: usize },
    /// The path (other than path 0) starts where no other path ends.
    OrphanPath(PathId),
    /// Some paths unlock each other in a circle.
    CycleDetected,
}

/// The adjacency errors of `p` for its tiles `1..n`.
pub open spec fn adjacency_errors(p: PathDefinition, n: int) -> Seq<PathError>
    decreases n,
{
    if n <= 1 {
        Seq::empty()
    } else {
        adjacency_errors(p, n - 1) + if !hex_adjacent(p.tiles@[n - 2], p.tiles@[n - 1]) {
            seq![PathError::NonAdjacentTile { path_id: p.id, tile_index: (n - 1) as usize }]
        } else {
            Seq::empty()
        }
    }
}

/// The shape errors of one path: empty, or each tile not next to the one
/// before it.
pub open spec fn shape_errors_of(p: PathDefinition) -> Seq<PathError> {
    if p.tiles@.len() == 0 {
        seq![PathError::EmptyPath(p.id)]
    } else {
        adjacency_errors(p, p.tiles@.len() as int)
    }
}

pub open spec fn shape_errors(paths: Seq<PathDefinition>, n: int) -> Seq<PathError>
    decreases n,
{
    if n <= 0 {
        Seq::empty()
    } else {
        shape_errors(paths, n - 1) + shape_errors_of(paths[n - 1])
    }
}

/// The paths `paths[..n]` other than path 0 that no path feeds into.
pub open spec fn orphan_errors(paths: Seq<PathDefinition>, n: int) -> Seq<PathError>
    decreases n,
{
    if n <= 0 {
        Seq::empty()
    } else {
        orphan_errors(paths, n - 1) + if paths[n - 1].id != PathId(0) && parents_of(
            paths,
            paths[n - 1].id,
        ).len() == 0 {
            seq![PathError::OrphanPath(paths[n - 1].id)]
        } else {
            Seq::empty()
        }
    }
}

/// Every error of the network, in the order `validate_paths` reports them:
/// the shape errors path by path, then the orphans, then a cycle.
pub open spec fn validation_errors(paths: Seq<PathDefinition>) -> Seq<PathError> {
    shape_errors(paths, paths.len() as int) + orphan_errors(paths, paths.len() as int) + if has_cycle_spec(paths) {
        seq![PathError::CycleDetected]
    } else {
        Seq::empty()
    }
}

/// A gap between two consecutive tiles of a path.
pub open spec fn gap_at(p: PathDefinition, i: int) -> bool {
    1 <= i < p.tiles@.len() && !hex_adjacent(p.tiles@[i - 1], p.tiles@[i])
}

proof fn lemma_adjacency_errors_member(p: PathDefinition, n: int, e: PathError)
    requires
        n <= p.tiles@.len(),
        p.tiles@.len() <= usize::MAX,
    ensures
        adjacency_errors(p, n).contains(e) <==> exists|i: int|
            1 <= i < n && #[trigger] gap_at(p, i) && e == (PathError::NonAdjacentTile {
                path_id: p.id,
                tile_index: i as usize,
            }),
    decreases n,
{
    if n <= 1 {
        if exists|i: int| 1 <= i < n && #[trigger] gap_at(p, i) && e == (PathError::NonAdjacentTile {
            path_id: p.id,
            tile_index: i as usize,
        }) {
            let i = choose|i: int| 1 <= i < n && #[trigger] gap_at(p, i) && e == (PathError::NonAdjacentTile {
                path_id: p.id,
                tile_index: i as usize,
            });
            assert(false);
        }
    } else {
        lemma_adjacency_errors_member(p, n - 1, e);
        let prev = adjacency_errors(p, n - 1);
        let last: Seq<PathError> = if !hex_adjacent(p.tiles@[n - 2], p.tiles@[n - 1]) {
            seq![PathError::NonAdjacentTile { path_id: p.id, tile_index: (n - 1) as usize }]
        } else {
            Seq::empty()
        };
        let all = adjacency_errors(p, n);
        assert(all == prev + last);
        if all.contains(e) {
            let j = choose|j: int| 0 <= j < all.len() && all[j] == e;
            if j < prev.len() {
                assert(prev[j] == e);
                assert(prev.contains(e));
                let i = choose|i: int| 1 <= i < n - 1 && #[trigger] gap_at(p, i) && e == (PathError::NonAdjacentTile {
                    path_id: p.id,
                    tile_index: i as usize,
                });
                assert(1 <= i < n && gap_at(p, i));
            } else {
                assert(last[j - prev.len()] == e);
                assert(gap_at(p, n - 1));
            }
        }
        if exists|i: int| 1 <= i < n && #[trigger] gap_at(p, i) && e == (PathError::NonAdjacentTile {
            path_id: p.id,
            tile_index: i as usize,
        }) {
            let i = choose|i: int| 1 <= i < n && #[trigger] gap_at(p, i) && e == (PathError::NonAdjacentTile {
                path_id: p.id,
                tile_index: i as usize,
            });
            if i < n - 1 {
                assert(prev.contains(e));
                let j = choose|j: int| 0 <= j < prev.len() && prev[j] == e;
                assert(all[j] == e);
            } else {
                assert(last[0] == e);
                assert(all[prev.len() as int] == e);
            }
        }
    }
}

proof fn lemma_shape_errors_member(paths: Seq<PathDefinition>, n: int, id: PathId, t: usize)
    requires
        0 <= n <= paths.len(),
        forall|k: int| 0 <= k < paths.len() ==> (#[trigger] paths[k]).tiles@.len() <= usize::MAX,
    ensures
        shape_errors(paths, n).contains(PathError::NonAdjacentTile { path_id: id, tile_index: t })
            <==> exists|k: int| 0 <= k < n && (#[trigger] paths[k]).id == id && gap_at(paths[k], t as int),
    decreases n,
{
    let e = PathError::NonAdjacentTile { path_id: id, tile_index: t };
    if n > 0 {
        lemma_shape_errors_member(paths, n - 1, id, t);
        let prev = shape_errors(paths, n - 1);
        let p = paths[n - 1];
        let own = shape_errors_of(p);
        let all = shape_errors(paths, n);
        assert(all == prev + own);
        assert(own.contains(e) <==> (p.id == id && gap_at(p, t as int))) by {
            if p.tiles@.len() == 0 {
                if own.contains(e) {
                    let j = choose|j: int| 0 <= j < own.len() && own[j] == e;
                    assert(own[0] == PathError::EmptyPath(p.id));
                }
            } else {
                lemma_adjacency_errors_member(p, p.tiles@.len() as int, e);
                if p.id == id && gap_at(p, t as int) {
                    assert(gap_at(p, t as int) && e == (PathError::NonAdjacentTile {
                        path_id: p.id,
                        tile_index: (t as int) as usize,
                    }));
                }
            }
        }
        if all.contains(e) {
            let j = choose|j: int| 0 <= j < all.len() && all[j] == e;
            if j < prev.len() {
                assert(prev[j] == e);
                assert(prev.contains(e));
            } else {
                assert(own[j - prev.len()] == e);
                assert(own.contains(e));
                assert(paths[n - 1].id == id && gap_at(paths[n - 1], t as int));
            }
        }
        if exists|k: int| 0 <= k < n && (#[trigger] paths[k]).id == id && gap_at(paths[k], t as int) {
            let k = choose|k: int| 0 <= k < n && (#[trigger] paths[k]).id == id && gap_at(paths[k], t as int);
            if k < n - 1 {
                assert(prev.contains(e));
                let j = choose|j: int| 0 <= j < prev.len() && prev[j] == e;
                assert(all[j] == e);
            } else {
                assert(own.contains(e));
                let j = choose|j: int| 0 <= j < own.len() && own[j] == e;
                assert(all[prev.len() + j] == e);
            }
        }
    }
}

proof fn lemma_orphan_errors_not_gaps(paths: Seq<PathDefinition>, n: int, e: PathError)
    requires
        e is NonAdjacentTile,
    ensures
        !orphan_errors(paths, n).contains(e),
    decreases n,
{
    if n > 0 {
        lemma_orphan_errors_not_gaps(paths, n - 1, e);
        let prev = orphan_errors(paths, n - 1);
        let all = orphan_errors(paths, n);
        if all.contains(e) {
            let j = choose|j: int| 0 <= j < all.len() && all[j] == e;
            if j < prev.len() {
                assert(prev[j] == all[j]);
            }
        }
    }
}

/// A path whose tile `i` (`i >= 1`) is not next to tile `i - 1` is reported
/// as a non-adjacent tile at index `i`, and every such report names a path
/// with exactly that gap.
pub proof fn lemma_gaps_reported(paths: Seq<PathDefinition>, id: PathId, i: usize)
    requires
        forall|k: int| 0 <= k < paths.len() ==> (#[trigger] paths[k]).tiles@.len() <= usize::MAX,
    ensures
        validation_errors(paths).contains(PathError::NonAdjacentTile { path_id: id, tile_index: i })
            <==> exists|k: int|
            0 <= k < paths.len() && (#[trigger] paths[k]).id == id && 1 <= i < paths[k].tiles@.len()
                && !hex_adjacent(paths[k].tiles@[i - 1], paths[k].tiles@[i as int]),
{
    let e = PathError::NonAdjacentTile { path_id: id, tile_index: i };
    let n = paths.len() as int;
    lemma_shape_errors_member(paths, n, id, i);
    lemma_orphan_errors_not_gaps(paths, n, e);
    let sh = shape_errors(paths, n);
    let or = orphan_errors(paths, n);
    let cy: Seq<PathError> = if has_cycle_spec(paths) {
        seq![PathError::CycleDetected]
    } else {
        Seq::empty()
    };
    let all = validation_errors(paths);
    assert(all == sh + or + cy);
    if all.contains(e) {
        let j = choose|j: int| 0 <= j < all.len() && all[j] == e;
        if j < sh.len() {
            assert(sh[j] == e);
            assert(sh.contains(e));
        } else if j < sh.len() + or.len() {
            assert(or[j - sh.len()] == e);
            assert(or.contains(e));
        } else {
            assert(cy[j - sh.len() - or.len()] == e);
        }
    }
    if sh.contains(e) {
        let j = choose|j: int| 0 <= j < sh.len() && sh[j] == e;
        assert(all[j] == e);
    }
}

/// Checks the path network: every path has tiles and each tile is next to
/// the one before it, every path but path 0 continues another path, and the
/// unlock graph has no cycle.
pub fn validate_paths(paths: &[PathDefinition]) -> (r: Vec<PathError>)
    ensures
        r@ == validation_errors(paths@),
{
    let mut errors: Vec<PathError> = Vec::new();
    let mut n: usize = 0;
    while n < paths.len()
        invariant
            n <= paths@.len(),
            errors@ == shape_errors(paths@, n as int),
        decreases paths@.len() - n,
    {
        let path = &paths[n];
        let ghost base = errors@;
        if path.tiles.len() == 0 {
            errors.push(PathError::EmptyPath(path.id));
        } else {
            let mut i: usize = 1;
            assert(adjacency_errors(*path, 1) =~= Seq::<PathError>::empty());
            assert(base + Seq::<PathError>::empty() =~= base);
            while i < path.tiles.len()
                invariant
                    1 <= i <= path.tiles@.len(),
                    n < paths@.len(),
                    *path == paths@[n as int],
                    errors@ == base + adjacency_errors(*path, i as int),
                decreases path.tiles@.len() - i,
            {
                if !are_hex_adjacent(path.tiles[i - 1], path.tiles[i]) {
                    errors.push(PathError::NonAdjacentTile { path_id: path.id, tile_index: i });
                    assert(base + (adjacency_errors(*path, i as int) + seq![
                        PathError::NonAdjacentTile { path_id: path.id, tile_index: i },
                    ]) =~= (base + adjacency_errors(*path, i as int)).push(
                        PathError::NonAdjacentTile { path_id: path.id, tile_index: i },
                    ));
                } else {
                    assert(adjacency_errors(*path, i as int) + Seq::<PathError>::empty()
                        =~= adjacency_errors(*path, i as int));
                }
                i = i + 1;
            }
        }
        n = n + 1;
    }
    let parents = compute_parents(paths);
    let ghost shapes = errors@;
    let mut n: usize = 0;
    assert(shapes + orphan_errors(paths@, 0) =~= shapes);
    while n < paths.len()
        invariant
            n <= paths@.len(),
            parents.describes(paths@),
            errors@ == shapes + orphan_errors(paths@, n as int),
        decreases paths@.len() - n,
    {
        let id = paths[n].id;
        if id != PathId(0) && !parents.contains_key(id) {
            errors.push(PathError::OrphanPath(id));
            assert(shapes + (orphan_errors(paths@, n as int) + seq![PathError::OrphanPath(id)])
                =~= (shapes + orphan_errors(paths@, n as int)).push(PathError::OrphanPath(id)));
        } else {
            assert(orphan_errors(paths@, n as int) + Seq::<PathError>::empty() =~= orphan_errors(
                paths@,
                n as int,
            ));
        }
        n = n + 1;
    }
    if has_cycle(paths, &parents) {
        errors.push(PathError::CycleDetected);
    }
    proof {
        if !has_cycle_spec(paths@) {
            assert(errors@ =~= validation_errors(paths@));
        }
    }
    errors
}

/// The name shown for a path id in messages: that of the first path with the
/// id, or `?`.
pub open spec fn display_name(paths: Seq<PathDefinition>, id: PathId) -> Seq<char> {
    match first_with_id(paths, id, 0) {
        Some(i) => paths[i].name@,
        None => "?"@,
    }
}

fn display_name_chars(paths: &[PathDefinition], id: PathId) -> (r: Vec<char>)
    ensures
        r@ == display_name(paths@, id),
{
    let mut i: usize = 0;
    while i < paths.len()
        invariant
            i <= paths@.len(),
            first_with_id(paths@, id, 0) == first_with_id(paths@, id, i as int),
        decreases paths@.len() - i,
    {
        if paths[i].id == id {
            return str_to_chars(paths[i].name.as_str());
        }
        i = i + 1;
    }
    str_to_chars("?")
}

impl PathError {
    /// The message shown for this error.
    pub open spec fn message_spec(self, paths: Seq<PathDefinition>) -> Seq<char> {
        match self {
            PathError::EmptyPath(id) => seq!['\''] + display_name(paths, id) + "': no tiles"@,
            PathError::NonAdjacentTile { path_id, tile_index } => seq!['\''] + display_name(
                paths,
                path_id,
            ) + "': tile "@ + decimal(tile_index as nat) + " not adjacent to tile "@ + decimal(
                (tile_index - 1) as nat,
            ),
            PathError::OrphanPath(id) => seq!['\''] + display_name(paths, id)
                + "': no parent (must start where another path ends)"@,
            PathError::CycleDetected => "Unlock graph has a cycle"@,
        }
    }

    /// The message shown for this error, naming the path it is about.
    pub fn message(&self, paths: &[PathDefinition]) -> (r: String)
        requires
            self matches PathError::NonAdjacentTile { tile_index, .. } ==> tile_index >= 1,
        ensures
            r@ == self.message_spec(paths@),
    {
        let mut out: Vec<char> = Vec::new();
        match self {
            PathError::EmptyPath(id) => {
                out.push('\'');
                let name = display_name_chars(paths, *id);
                append_chars(&mut out, name.as_slice());
                append_str(&mut out, "': no tiles");
            },
            PathError::NonAdjacentTile { path_id, tile_index } => {
                out.push('\'');
                let name = display_name_chars(paths, *path_id);
                append_chars(&mut out, name.as_slice());
                append_str(&mut out, "': tile ");
                push_decimal(&mut out, *tile_index as u64);
                append_str(&mut out, " not adjacent to tile ");
                push_decimal(&mut out, (*tile_index - 1) as u64);
            },
            PathError::OrphanPath(id) => {
                out.push('\'');
                let name = display_name_chars(paths, *id);
                append_chars(&mut out, name.as_slice());
                append_str(&mut out, "': no parent (must start where another path ends)");
            },
            PathError::CycleDetected => {
                append_str(&mut out, "Unlock graph has a cycle");
            },
        }
        proof {
            assert(out@ =~= self.message_spec(paths@));
        }
        chars_to_string(out.as_slice())
    }
}

} // verus!
