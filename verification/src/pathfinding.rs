//! A* pathfinding on the hex grid.

use vstd::prelude::*;

use crate::engine::{BuildingModel, GameState, building_models, building_pos, lemma_unblocked_coord_ok};
use crate::hex::{Position, coord_ok, hex_dist, hex_distance, hex_neighbors, is_neighbor, lemma_hex_dist_step, neighbor_at};
use crate::seqs::{count_false, lemma_count_false_set, lemma_sum_add, lemma_sum_nonneg, sum};
use crate::state::{Tile, grid_view, tile_cost_halves};

verus! {

/// A walk from `start` (exclusive) to `end` (inclusive): each step goes to a
/// neighboring hex and no step enters a blocked cell.
pub open spec fn is_walk(s: &GameState, start: Position, end: Position, path: Seq<Position>) -> bool {
    &&& path.len() > 0
    &&& path.last() == end
    &&& is_neighbor(start, path[0])
    &&& forall|i: int| 0 <= i < path.len() - 1 ==> is_neighbor(#[trigger] path[i], path[i + 1])
    &&& forall|i: int| 0 <= i < path.len() ==> !s.blocked(#[trigger] path[i])
}

/// Some walk leads from `start` to `end`.
pub open spec fn reachable(s: &GameState, start: Position, end: Position) -> bool {
    exists|path: Seq<Position>| is_walk(s, start, end, path)
}

/// What `find_path` promises of the path it returns: none when already there or
/// when the destination is blocked, a cheapest walk when one is returned, and
/// none only when no walk exists.
pub open spec fn path_found(s: &GameState, start: Position, end: Position, path: Seq<Position>) -> bool {
    &&& path == route(s, start, end)
    &&& (start == end || s.blocked(end)) ==> path.len() == 0
    &&& path.len() > 0 ==> is_walk(s, start, end, path)
    &&& path.len() > 0 ==> cheapest(s, start, end, path)
    &&& (start != end && !s.blocked(end) && path.len() == 0) ==> !reachable(s, start, end)
}

/// What entering a cell costs, in half steps; nothing where no walk may enter.
pub open spec fn step_cost(s: &GameState, p: Position) -> int {
    match tile_cost_halves(s.tile_at(p).tile_type) {
        Some(c) => c as int,
        None => 0,
    }
}

/// What a walk costs: the cost of entering each of its cells.
pub open spec fn walk_cost(s: &GameState, path: Seq<Position>) -> int {
    sum(path.map_values(|q: Position| step_cost(s, q)))
}

/// No walk from `start` to `end` costs less than `path`.
pub open spec fn cheapest(s: &GameState, start: Position, end: Position, path: Seq<Position>) -> bool {
    forall|w: Seq<Position>| is_walk(s, start, end, w) ==> walk_cost(s, path) <= walk_cost(s, w)
}

/// The search's estimate of what is left from `p` to `end`: a step costs at least two.
pub open spec fn estimate(p: Position, end: Position) -> int {
    2 * hex_dist(p, end)
}

proof fn lemma_step_cost_bounds(s: &GameState, q: Position)
    requires
        s.terrain_ok(),
        !s.blocked(q),
    ensures
        2 <= step_cost(s, q) <= 4,
{
}

/// A walk costs the cost of its first `j` cells plus the cost of the rest.
proof fn lemma_walk_cost_split(s: &GameState, w: Seq<Position>, j: int)
    requires
        0 <= j <= w.len(),
    ensures
        walk_cost(s, w) == walk_cost(s, w.take(j)) + walk_cost(s, w.skip(j)),
{
    let f = |q: Position| step_cost(s, q);
    assert(w =~= w.take(j) + w.skip(j));
    assert(w.map_values(f) =~= w.take(j).map_values(f) + w.skip(j).map_values(f));
    lemma_sum_add(w.take(j).map_values(f), w.skip(j).map_values(f));
}

/// A walk of cells nobody is kept out of costs nothing negative.
proof fn lemma_walk_cost_nonneg(s: &GameState, w: Seq<Position>)
    requires
        s.terrain_ok(),
        forall|i: int| 0 <= i < w.len() ==> !s.blocked(#[trigger] w[i]),
    ensures
        walk_cost(s, w) >= 0,
{
    let f = |q: Position| step_cost(s, q);
    assert forall|i: int| 0 <= i < w.map_values(f).len() implies 0 <= #[trigger] w.map_values(f)[i] by {
        lemma_step_cost_bounds(s, w[i]);
    }
    lemma_sum_nonneg(w.map_values(f));
}

/// The estimate never overshoots: from `q`, what a walk to `p` costs plus the
/// estimate from `p` is at least the estimate from `q`.
proof fn lemma_estimate_along(s: &GameState, q: Position, p: Position, v: Seq<Position>, end: Position)
    requires
        s.terrain_ok(),
        coord_ok(q),
        is_walk(s, q, p, v),
    ensures
        estimate(q, end) <= walk_cost(s, v) + estimate(p, end),
    decreases v.len(),
{
    let v0 = v[0];
    lemma_hex_dist_step(q, v0, end);
    lemma_step_cost_bounds(s, v0);
    lemma_walk_cost_split(s, v, 1);
    assert(walk_cost(s, v.take(1)) == step_cost(s, v0)) by {
        let one = v.take(1).map_values(|x: Position| step_cost(s, x));
        assert(one.len() == 1 && one[0] == step_cost(s, v0));
        assert(one.drop_last() =~= Seq::<int>::empty());
        assert(sum(one.drop_last()) == 0);
    }
    if v.len() == 1 {
        assert(v0 == p);
        assert(v.skip(1) =~= Seq::<Position>::empty());
        assert(walk_cost(s, v.skip(1)) == 0) by {
            assert(v.skip(1).map_values(|x: Position| step_cost(s, x)) =~= Seq::<int>::empty());
        }
    } else {
        let rest = v.skip(1);
        lemma_unblocked_coord_ok(s, v0);
        assert(is_walk(s, v0, p, rest)) by {
            assert(rest.last() == v.last());
            assert(is_neighbor(v[0], v[1]));
            assert forall|i: int| 0 <= i < rest.len() - 1 implies is_neighbor(#[trigger] rest[i], rest[i + 1]) by {
                assert(rest[i] == v[i + 1] && rest[i + 1] == v[i + 2]);
            }
            assert forall|i: int| 0 <= i < rest.len() implies !s.blocked(#[trigger] rest[i]) by {
                assert(rest[i] == v[i + 1]);
            }
        }
        lemma_estimate_along(s, v0, p, rest, end);
    }
}

#[derive(Clone, Copy)]
struct SearchNode {
    pos: Position,
    g: u64,
    f: u64,
    parent: usize,
}

/// What a search reads of a match: the map's size, its tiles and where the
/// buildings stand.
pub struct Ground {
    pub width: u32,
    pub height: u32,
    pub tiles: Seq<Seq<Tile>>,
    pub sites: Seq<Position>,
}

pub open spec fn ground(s: &GameState) -> Ground {
    Ground {
        width: s.map_width,
        height: s.map_height,
        tiles: grid_view(s.terrain@),
        sites: building_models(s.buildings@).map_values(|b: BuildingModel| building_pos(b)),
    }
}

pub open spec fn g_in_bounds(g: Ground, p: Position) -> bool {
    0 <= p.x < g.width && 0 <= p.y < g.height
}

pub open spec fn g_blocked(g: Ground, p: Position) -> bool {
    ||| !g_in_bounds(g, p)
    ||| tile_cost_halves(g.tiles[p.y as int][p.x as int].tile_type) is None
    ||| g.sites.contains(p)
}

pub open spec fn g_step(g: Ground, p: Position) -> int {
    match tile_cost_halves(g.tiles[p.y as int][p.x as int].tile_type) {
        Some(c) => c as int,
        None => 0,
    }
}

/// The search's state: the expanded cells (with `sx` for a start off the map),
/// the nodes found so far and the open list of node indices.
struct Search {
    closed: Seq<bool>,
    sx: bool,
    nodes: Seq<SearchNode>,
    open: Seq<usize>,
}

enum Outcome {
    Going(Search),
    Found(Seq<SearchNode>, usize),
    Exhausted,
}

spec fn g_expanded(g: Ground, closed: Seq<bool>, start: Position, sx: bool, p: Position) -> bool {
    if g_in_bounds(g, p) {
        closed[cell_index(g.width as int, p)]
    } else {
        p == start && sx
    }
}

/// The position in the open list of its first entry of least priority among
/// the first `k`.
spec fn best_in(nodes: Seq<SearchNode>, open: Seq<usize>, k: int) -> int
    decreases k,
{
    if k <= 1 {
        0
    } else {
        let b = best_in(nodes, open, k - 1);
        if nodes[open[k - 1] as int].f < nodes[open[b] as int].f { k - 1 } else { b }
    }
}

/// The node for a neighbor `n` reached from node `ci`.
spec fn child(g: Ground, end: Position, cur: SearchNode, ci: usize, n: Position) -> SearchNode {
    let cost = cur.g + g_step(g, n);
    SearchNode { pos: n, g: cost as u64, f: (cost + 2 * hex_dist(n, end)) as u64, parent: ci }
}

/// Add the neighbors `d..6` of an expanded node that are neither expanded nor blocked.
#[verifier::opaque]
spec fn expand_from(g: Ground, start: Position, end: Position, st: Search, cur: SearchNode, ci: usize, d: int) -> Search
    decreases 6 - d,
{
    if d >= 6 {
        st
    } else {
        let n = neighbor_at(cur.pos, d);
        let st2 = if !g_expanded(g, st.closed, start, st.sx, n) && !g_blocked(g, n) {
            Search {
                closed: st.closed,
                sx: st.sx,
                nodes: st.nodes.push(child(g, end, cur, ci, n)),
                open: st.open.push(st.nodes.len() as usize),
            }
        } else {
            st
        };
        expand_from(g, start, end, st2, cur, ci, d + 1)
    }
}

spec fn mark(g: Ground, st: Search, p: Position) -> Search {
    if g_in_bounds(g, p) {
        Search { closed: st.closed.update(cell_index(g.width as int, p), true), ..st }
    } else {
        Search { sx: true, ..st }
    }
}

/// One round of the search: take the first open entry of least priority; stop
/// at the end cell, skip a cell already expanded, or expand it.
#[verifier::opaque]
spec fn search_step(g: Ground, start: Position, end: Position, st: Search) -> Outcome {
    if st.open.len() == 0 {
        Outcome::Exhausted
    } else {
        let b = best_in(st.nodes, st.open, st.open.len() as int);
        let ci = st.open[b];
        let cur = st.nodes[ci as int];
        let rest = Search { open: st.open.update(b, st.open.last()).drop_last(), ..st };
        if cur.pos == end {
            Outcome::Found(st.nodes, ci)
        } else if g_expanded(g, st.closed, start, st.sx, cur.pos) {
            Outcome::Going(rest)
        } else {
            Outcome::Going(expand_from(g, start, end, mark(g, rest, cur.pos), cur, ci, 0))
        }
    }
}

#[verifier::opaque]
spec fn search_run(g: Ground, start: Position, end: Position, st: Search, fuel: nat) -> Option<(Seq<SearchNode>, usize)>
    decreases fuel,
{
    if fuel == 0 {
        None
    } else {
        match search_step(g, start, end, st) {
            Outcome::Exhausted => None,
            Outcome::Found(ns, e) => Some((ns, e)),
            Outcome::Going(st2) => search_run(g, start, end, st2, (fuel - 1) as nat),
        }
    }
}

/// The cells from the start (exclusive) to node `e`, following parents.
#[verifier::opaque]
spec fn trace(nodes: Seq<SearchNode>, e: int) -> Seq<Position>
    decreases e,
{
    if e <= 0 {
        Seq::empty()
    } else if nodes[e].parent as int >= e {
        seq![nodes[e].pos]
    } else {
        trace(nodes, nodes[e].parent as int).push(nodes[e].pos)
    }
}

spec fn search_of(closed: Seq<bool>, sx: bool, nodes: Seq<SearchNode>, open: Seq<usize>) -> Search {
    Search { closed, sx, nodes, open }
}

spec fn start_search(g: Ground, start: Position, end: Position) -> Search {
    Search {
        closed: Seq::new((g.width * g.height) as nat, |i: int| false),
        sx: false,
        nodes: seq![SearchNode { pos: start, g: 0, f: (2 * hex_dist(start, end)) as u64, parent: 0 }],
        open: seq![0usize],
    }
}

/// More rounds than the search can take: each round expands a cell or drops an
/// open entry.
spec fn search_fuel(g: Ground) -> nat {
    (7 * (g.width * g.height + 1) + 1) as nat
}

/// The route the search picks from `start` to `end` on a ground: none when
/// already there or when `end` is blocked, otherwise the cells leading to the
/// first open entry for `end` to be taken, or none when the open list runs out.
pub closed spec fn route_on(g: Ground, start: Position, end: Position) -> Seq<Position> {
    if start == end || g_blocked(g, end) {
        Seq::empty()
    } else {
        match search_run(g, start, end, start_search(g, start, end), search_fuel(g)) {
            Some((ns, e)) => trace(ns, e as int),
            None => Seq::empty(),
        }
    }
}

/// The route `find_path` returns on a match.
pub open spec fn route(s: &GameState, start: Position, end: Position) -> Seq<Position> {
    route_on(ground(s), start, end)
}

/// A round that takes the entry for the end cell ends the search there.
proof fn lemma_run_found(g: Ground, start: Position, end: Position, st: Search, fuel: nat, b: int)
    requires
        st.open.len() > 0,
        fuel >= 1,
        b == best_in(st.nodes, st.open, st.open.len() as int),
        st.nodes[st.open[b] as int].pos == end,
    ensures
        search_run(g, start, end, st, fuel) == Some((st.nodes, st.open[b])),
{
    reveal(search_run);
    reveal(search_step);
}

/// A round that takes an entry for an expanded cell drops it and goes on.
proof fn lemma_run_skip(g: Ground, start: Position, end: Position, st: Search, fuel: nat, b: int)
    requires
        st.open.len() > 0,
        fuel >= 1,
        b == best_in(st.nodes, st.open, st.open.len() as int),
        st.nodes[st.open[b] as int].pos != end,
        g_expanded(g, st.closed, start, st.sx, st.nodes[st.open[b] as int].pos),
    ensures
        search_run(g, start, end, st, fuel) == search_run(g, start, end,
            search_of(st.closed, st.sx, st.nodes, st.open.update(b, st.open.last()).drop_last()), (fuel - 1) as nat),
{
    reveal(search_run);
    reveal(search_step);
    assert(search_step(g, start, end, st) == Outcome::Going(
        search_of(st.closed, st.sx, st.nodes, st.open.update(b, st.open.last()).drop_last())));
}

/// A round that takes an entry for a new cell expands it and goes on.
proof fn lemma_run_expand(g: Ground, start: Position, end: Position, st: Search, fuel: nat, b: int)
    requires
        st.open.len() > 0,
        fuel >= 1,
        b == best_in(st.nodes, st.open, st.open.len() as int),
        st.nodes[st.open[b] as int].pos != end,
        !g_expanded(g, st.closed, start, st.sx, st.nodes[st.open[b] as int].pos),
    ensures
        search_run(g, start, end, st, fuel) == search_run(g, start, end,
            expand_from(g, start, end,
                mark(g, search_of(st.closed, st.sx, st.nodes, st.open.update(b, st.open.last()).drop_last()),
                    st.nodes[st.open[b] as int].pos),
                st.nodes[st.open[b] as int], st.open[b], 0),
            (fuel - 1) as nat),
{
    reveal(search_run);
    reveal(search_step);
    assert(search_of(st.closed, st.sx, st.nodes, st.open.update(b, st.open.last()).drop_last())
        == (Search { open: st.open.update(b, st.open.last()).drop_last(), ..st }));
}

/// With the open list empty the search finds nothing.
proof fn lemma_run_exhausted(g: Ground, start: Position, end: Position, st: Search, fuel: nat)
    requires
        st.open.len() == 0,
    ensures
        search_run(g, start, end, st, fuel) is None,
{
    reveal(search_run);
    reveal(search_step);
}

/// One neighbor of the expansion: added when it is neither expanded nor blocked.
proof fn lemma_expand_one(g: Ground, start: Position, end: Position, st: Search, cur: SearchNode, ci: usize, d: int)
    requires
        0 <= d < 6,
    ensures
        expand_from(g, start, end, st, cur, ci, d) == expand_from(g, start, end,
            if !g_expanded(g, st.closed, start, st.sx, neighbor_at(cur.pos, d)) && !g_blocked(g, neighbor_at(cur.pos, d)) {
                search_of(st.closed, st.sx, st.nodes.push(child(g, end, cur, ci, neighbor_at(cur.pos, d))),
                    st.open.push(st.nodes.len() as usize))
            } else {
                st
            },
            cur, ci, d + 1),
        expand_from(g, start, end, st, cur, ci, 6) == st,
{
    reveal(expand_from);
}

proof fn lemma_trace_step(nodes: Seq<SearchNode>, c: int)
    requires
        0 < c,
        nodes[c].parent < c,
    ensures
        trace(nodes, c) == trace(nodes, nodes[c].parent as int).push(nodes[c].pos),
        trace(nodes, 0) == Seq::<Position>::empty(),
{
    reveal(trace);
}

proof fn lemma_ground_agrees(s: &GameState, p: Position)
    requires
        s.terrain_ok(),
    ensures
        s.in_bounds(p) == g_in_bounds(ground(s), p),
        s.blocked(p) == g_blocked(ground(s), p),
        !s.blocked(p) ==> step_cost(s, p) == g_step(ground(s), p),
{
    let g = ground(s);
    if s.in_bounds(p) {
        assert(g.tiles[p.y as int] == s.terrain@[p.y as int]@);
    }
    if s.building_at(p) {
        let i = choose|i: int| 0 <= i < s.buildings@.len() && #[trigger] building_pos(s.buildings@[i]@) == p;
        assert(g.sites[i] == p);
    }
    if g.sites.contains(p) {
        let i = choose|i: int| 0 <= i < g.sites.len() && g.sites[i] == p;
        assert(building_pos(s.buildings@[i]@) == p);
    }
}

spec fn cell_index(w: int, p: Position) -> int {
    p.y * w + p.x
}

spec fn expanded(s: &GameState, closed: Seq<bool>, start: Position, sx: bool, p: Position) -> bool {
    if s.in_bounds(p) {
        closed[cell_index(s.map_width as int, p)]
    } else {
        p == start && sx
    }
}

spec fn in_open(nodes: Seq<SearchNode>, open: Seq<usize>, p: Position) -> bool {
    exists|k: int| 0 <= k < open.len() && #[trigger] nodes[open[k] as int].pos == p
}

spec fn covered(s: &GameState, closed: Seq<bool>, start: Position, sx: bool, nodes: Seq<SearchNode>, open: Seq<usize>, p: Position) -> bool {
    expanded(s, closed, start, sx, p) || in_open(nodes, open, p)
}

/// Every unblocked neighbor of an expanded cell other than `c` is expanded or waiting in the open list.
spec fn frontier_except(s: &GameState, closed: Seq<bool>, start: Position, sx: bool, nodes: Seq<SearchNode>, open: Seq<usize>, c: Option<Position>) -> bool {
    forall|p: Position, d: int|
        #![trigger expanded(s, closed, start, sx, p), neighbor_at(p, d)]
        expanded(s, closed, start, sx, p) && Some(p) != c && 0 <= d < 6 && !s.blocked(neighbor_at(p, d))
            ==> covered(s, closed, start, sx, nodes, open, neighbor_at(p, d))
}

spec fn nodes_ok(s: &GameState, start: Position, nodes: Seq<SearchNode>) -> bool {
    &&& nodes.len() >= 1
    &&& nodes[0].pos == start
    &&& forall|i: int| 1 <= i < nodes.len() ==> (#[trigger] nodes[i]).parent < i
    &&& forall|i: int| 1 <= i < nodes.len() ==> is_neighbor(nodes[(#[trigger] nodes[i]).parent as int].pos, nodes[i].pos)
    &&& forall|i: int| 1 <= i < nodes.len() ==> !s.blocked((#[trigger] nodes[i]).pos)
    &&& forall|i: int| 0 <= i < nodes.len() ==> (#[trigger] nodes[i]).g <= 4 * i
}

/// The best cost found so far for an expanded cell.
spec fn g_of(s: &GameState, start: Position, gseq: Seq<int>, p: Position) -> int {
    if p == start { 0 } else { gseq[cell_index(s.map_width as int, p)] }
}

/// No walk to `p` costs less than `g`.
spec fn cheapest_cost(s: &GameState, start: Position, p: Position, g: int) -> bool {
    forall|w: Seq<Position>| is_walk(s, start, p, w) ==> g <= walk_cost(s, w)
}

/// Every expanded cell was expanded at the least cost of reaching it.
spec fn settled(s: &GameState, closed: Seq<bool>, start: Position, sx: bool, gseq: Seq<int>) -> bool {
    forall|p: Position| #[trigger] expanded(s, closed, start, sx, p) && p != start
        ==> cheapest_cost(s, start, p, g_of(s, start, gseq, p))
}

/// An open entry for `q` costs at most `bound`.
spec fn in_open_within(nodes: Seq<SearchNode>, open: Seq<usize>, q: Position, bound: int) -> bool {
    exists|k: int| 0 <= k < open.len() && #[trigger] nodes[open[k] as int].pos == q && nodes[open[k] as int].g <= bound
}

/// Every unblocked neighbor of an expanded cell other than `c` is expanded, or
/// waits in the open list at no more than the cost of reaching it through that cell.
spec fn frontier_costs(s: &GameState, closed: Seq<bool>, start: Position, sx: bool, gseq: Seq<int>, nodes: Seq<SearchNode>, open: Seq<usize>, c: Option<Position>) -> bool {
    forall|p: Position, d: int|
        #![trigger expanded(s, closed, start, sx, p), neighbor_at(p, d)]
        expanded(s, closed, start, sx, p) && Some(p) != c && 0 <= d < 6 && !s.blocked(neighbor_at(p, d))
            ==> expanded(s, closed, start, sx, neighbor_at(p, d))
                || in_open_within(nodes, open, neighbor_at(p, d), g_of(s, start, gseq, p) + step_cost(s, neighbor_at(p, d)))
}

/// Each entry's cost is its parent's plus the cost of entering its cell, and its
/// priority adds the estimate of what is left.
spec fn costs_ok(s: &GameState, end: Position, nodes: Seq<SearchNode>) -> bool {
    &&& nodes[0].g == 0
    &&& forall|i: int| 0 <= i < nodes.len() ==> (#[trigger] nodes[i]).f == nodes[i].g + estimate(nodes[i].pos, end)
    &&& forall|i: int| 1 <= i < nodes.len() ==> (#[trigger] nodes[i]).g == nodes[nodes[i].parent as int].g + step_cost(s, nodes[i].pos)
}

proof fn lemma_walk_cost_single(s: &GameState, q: Position)
    ensures
        walk_cost(s, seq![q]) == step_cost(s, q),
{
    let one = seq![q].map_values(|x: Position| step_cost(s, x));
    assert(one.drop_last() =~= Seq::<int>::empty());
    assert(sum(one.drop_last()) == 0);
}

/// The first `j` cells of a walk are a walk to its `j`th cell.
proof fn lemma_walk_prefix(s: &GameState, start: Position, p: Position, w: Seq<Position>, j: int)
    requires
        is_walk(s, start, p, w),
        1 <= j <= w.len(),
    ensures
        is_walk(s, start, w[j - 1], w.take(j)),
{
    let t = w.take(j);
    assert forall|i: int| 0 <= i < t.len() - 1 implies is_neighbor(#[trigger] t[i], t[i + 1]) by {
        assert(t[i] == w[i] && t[i + 1] == w[i + 1]);
    }
    assert forall|i: int| 0 <= i < t.len() implies !s.blocked(#[trigger] t[i]) by {
        assert(t[i] == w[i]);
    }
}

/// The cells of a walk after its `j`th are a walk from the `j`th.
#[verifier::spinoff_prover]
proof fn lemma_walk_suffix(s: &GameState, start: Position, p: Position, w: Seq<Position>, j: int)
    requires
        is_walk(s, start, p, w),
        1 <= j < w.len(),
    ensures
        is_walk(s, w[j - 1], p, w.skip(j)),
{
    let t = w.skip(j);
    assert(is_neighbor(w[j - 1], w[j]));
    assert forall|i: int| 0 <= i < t.len() - 1 implies is_neighbor(#[trigger] t[i], t[i + 1]) by {
        assert(t[i] == w[i + j] && t[i + 1] == w[i + j + 1]);
    }
    assert forall|i: int| 0 <= i < t.len() implies !s.blocked(#[trigger] t[i]) by {
        assert(t[i] == w[i + j]);
    }
}

/// The first cell of a walk from the expanded cell `q` that is not expanded.
proof fn lemma_first_unexpanded(s: &GameState, closed: Seq<bool>, start: Position, sx: bool, q: Position, p: Position, w: Seq<Position>) -> (j: int)
    requires
        expanded(s, closed, start, sx, q),
        !expanded(s, closed, start, sx, p),
        is_walk(s, q, p, w),
    ensures
        0 <= j < w.len(),
        !expanded(s, closed, start, sx, w[j]),
        j > 0 ==> expanded(s, closed, start, sx, w[j - 1]),
    decreases w.len(),
{
    if w.len() == 1 || !expanded(s, closed, start, sx, w[0]) {
        0
    } else {
        let rest = w.skip(1);
        lemma_walk_suffix(s, q, p, w, 1);
        let j1 = lemma_first_unexpanded(s, closed, start, sx, w[0], p, rest);
        assert(rest[j1] == w[j1 + 1]);
        if j1 > 0 {
            assert(rest[j1 - 1] == w[j1]);
        }
        j1 + 1
    }
}

/// The entry with the least priority is reached at the least cost: no walk to
/// its cell costs less.
proof fn lemma_pop_cheapest(
    s: &GameState,
    closed: Seq<bool>,
    start: Position,
    sx: bool,
    gseq: Seq<int>,
    nodes: Seq<SearchNode>,
    open: Seq<usize>,
    k0: int,
    end: Position,
    w: Seq<Position>,
)
    requires
        s.terrain_ok(),
        coord_ok(start),
        expanded(s, closed, start, sx, start),
        settled(s, closed, start, sx, gseq),
        frontier_costs(s, closed, start, sx, gseq, nodes, open, None),
        costs_ok(s, end, nodes),
        forall|k: int| 0 <= k < open.len() ==> (#[trigger] open[k]) < nodes.len(),
        0 <= k0 < open.len(),
        forall|k: int| 0 <= k < open.len() ==> nodes[open[k0] as int].f <= #[trigger] nodes[open[k] as int].f,
        !expanded(s, closed, start, sx, nodes[open[k0] as int].pos),
        is_walk(s, start, nodes[open[k0] as int].pos, w),
    ensures
        nodes[open[k0] as int].g <= walk_cost(s, w),
{
    let x = nodes[open[k0] as int];
    let p = x.pos;
    let j = lemma_first_unexpanded(s, closed, start, sx, start, p, w);
    let q = w[j];
    let prev = if j == 0 { start } else { w[j - 1] };
    assert(expanded(s, closed, start, sx, prev));
    assert(is_neighbor(prev, q)) by {
        if j > 0 {
            assert(is_neighbor(w[j - 1], w[j]));
        }
    }
    let d = choose|d: int| 0 <= d < 6 && neighbor_at(prev, d) == q;
    assert(!s.blocked(q));
    assert(in_open_within(nodes, open, q, g_of(s, start, gseq, prev) + step_cost(s, q)));
    let k1 = choose|k1: int| 0 <= k1 < open.len() && #[trigger] nodes[open[k1] as int].pos == q
        && nodes[open[k1] as int].g <= g_of(s, start, gseq, prev) + step_cost(s, q);
    let y = nodes[open[k1] as int];
    // Reaching the unexpanded cell through the expanded one costs no more than the walk's prefix.
    assert(g_of(s, start, gseq, prev) <= walk_cost(s, w.take(j))) by {
        if j > 0 {
            lemma_walk_prefix(s, start, p, w, j);
            assert(w.take(j)[j - 1] == w[j - 1]);
            assert forall|i: int| 0 <= i < w.take(j).len() implies !s.blocked(#[trigger] w.take(j)[i]) by {
                assert(w.take(j)[i] == w[i]);
            }
            lemma_walk_cost_nonneg(s, w.take(j));
        } else {
            assert(w.take(0).map_values(|x: Position| step_cost(s, x)) =~= Seq::<int>::empty());
        }
    }
    lemma_walk_cost_split(s, w.take(j + 1), j);
    assert(w.take(j + 1).take(j) =~= w.take(j));
    assert(w.take(j + 1).skip(j) =~= seq![q]);
    lemma_walk_cost_single(s, q);
    lemma_walk_cost_split(s, w, j + 1);
    // What is left after the unexpanded cell costs at least the estimate's drop.
    lemma_unblocked_coord_ok(s, q);
    if j + 1 < w.len() {
        lemma_walk_suffix(s, start, p, w, j + 1);
        lemma_estimate_along(s, q, p, w.skip(j + 1), end);
    } else {
        assert(q == p);
        assert(w.skip(j + 1).map_values(|x: Position| step_cost(s, x)) =~= Seq::<int>::empty());
    }
    assert(x.f <= y.f);
}

proof fn lemma_within_push(nodes: Seq<SearchNode>, open: Seq<usize>, n: SearchNode, q: Position, b: int)
    requires
        nodes.len() <= usize::MAX,
        in_open_within(nodes, open, q, b),
        forall|k: int| 0 <= k < open.len() ==> open[k] < nodes.len(),
    ensures
        in_open_within(nodes.push(n), open.push(nodes.len() as usize), q, b),
{
    let k = choose|k: int| 0 <= k < open.len() && #[trigger] nodes[open[k] as int].pos == q && nodes[open[k] as int].g <= b;
    assert(open.push(nodes.len() as usize)[k] == open[k]);
    assert(nodes.push(n)[open[k] as int] == nodes[open[k] as int]);
}

proof fn lemma_within_new(nodes: Seq<SearchNode>, open: Seq<usize>, n: SearchNode)
    requires
        nodes.len() <= usize::MAX,
    ensures
        in_open_within(nodes.push(n), open.push(nodes.len() as usize), n.pos, n.g as int),
{
    let k = open.len() as int;
    assert(open.push(nodes.len() as usize)[k] == nodes.len());
    assert(nodes.push(n)[nodes.len() as int] == n);
}

proof fn lemma_within_swap_remove(nodes: Seq<SearchNode>, open: Seq<usize>, k0: int, q: Position, b: int)
    requires
        0 <= k0 < open.len(),
        in_open_within(nodes, open, q, b),
        nodes[open[k0] as int].pos != q,
    ensures
        in_open_within(nodes, open.update(k0, open.last()).drop_last(), q, b),
{
    let k = choose|k: int| 0 <= k < open.len() && #[trigger] nodes[open[k] as int].pos == q && nodes[open[k] as int].g <= b;
    let o2 = open.update(k0, open.last()).drop_last();
    if k == open.len() - 1 {
        assert(o2[k0] == open[k]);
        assert(nodes[o2[k0] as int].pos == q);
    } else {
        assert(o2[k] == open[k]);
        assert(nodes[o2[k] as int].pos == q);
    }
}

/// Taking an entry whose cell is already expanded out of the open list keeps
/// the frontier.
proof fn lemma_frontier_costs_skip(s: &GameState, closed: Seq<bool>, start: Position, sx: bool, gseq: Seq<int>, nodes: Seq<SearchNode>, open: Seq<usize>, k0: int)
    requires
        frontier_costs(s, closed, start, sx, gseq, nodes, open, None),
        0 <= k0 < open.len(),
        expanded(s, closed, start, sx, nodes[open[k0] as int].pos),
    ensures
        frontier_costs(s, closed, start, sx, gseq, nodes, open.update(k0, open.last()).drop_last(), None),
{
    assert forall|p: Position, d: int|
        expanded(s, closed, start, sx, p) && Some(p) != None::<Position> && 0 <= d < 6 && !s.blocked(#[trigger] neighbor_at(p, d))
        implies expanded(s, closed, start, sx, neighbor_at(p, d))
            || in_open_within(nodes, open.update(k0, open.last()).drop_last(), neighbor_at(p, d), g_of(s, start, gseq, p) + step_cost(s, neighbor_at(p, d))) by {
        let q = neighbor_at(p, d);
        if !expanded(s, closed, start, sx, q) {
            lemma_within_swap_remove(nodes, open, k0, q, g_of(s, start, gseq, p) + step_cost(s, q));
        }
    }
}

/// Expanding the cell of an open entry: the other expanded cells keep their
/// frontier, and all expanded cells stay settled once the new one is.
proof fn lemma_expand_keeps(
    s: &GameState,
    start: Position,
    closed_b: Seq<bool>,
    sx_b: bool,
    gseq_b: Seq<int>,
    closed_a: Seq<bool>,
    sx_a: bool,
    gseq_a: Seq<int>,
    nodes: Seq<SearchNode>,
    open: Seq<usize>,
    k0: int,
)
    requires
        0 <= k0 < open.len(),
        frontier_costs(s, closed_b, start, sx_b, gseq_b, nodes, open, None),
        settled(s, closed_b, start, sx_b, gseq_b),
        forall|q: Position| #[trigger] expanded(s, closed_a, start, sx_a, q)
            <==> expanded(s, closed_b, start, sx_b, q) || q == nodes[open[k0] as int].pos,
        forall|q: Position| expanded(s, closed_b, start, sx_b, q)
            ==> g_of(s, start, gseq_a, q) == #[trigger] g_of(s, start, gseq_b, q),
        nodes[open[k0] as int].pos != start ==> cheapest_cost(s, start, nodes[open[k0] as int].pos,
            g_of(s, start, gseq_a, nodes[open[k0] as int].pos)),
    ensures
        frontier_costs(s, closed_a, start, sx_a, gseq_a, nodes, open.update(k0, open.last()).drop_last(), Some(nodes[open[k0] as int].pos)),
        settled(s, closed_a, start, sx_a, gseq_a),
{
    let c = nodes[open[k0] as int].pos;
    let o2 = open.update(k0, open.last()).drop_last();
    assert forall|p: Position, d: int|
        expanded(s, closed_a, start, sx_a, p) && Some(p) != Some(c) && 0 <= d < 6 && !s.blocked(#[trigger] neighbor_at(p, d))
        implies expanded(s, closed_a, start, sx_a, neighbor_at(p, d))
            || in_open_within(nodes, o2, neighbor_at(p, d), g_of(s, start, gseq_a, p) + step_cost(s, neighbor_at(p, d))) by {
        let q = neighbor_at(p, d);
        assert(expanded(s, closed_b, start, sx_b, p));
        assert(g_of(s, start, gseq_a, p) == g_of(s, start, gseq_b, p));
        if !expanded(s, closed_a, start, sx_a, q) {
            assert(!expanded(s, closed_b, start, sx_b, q));
            lemma_within_swap_remove(nodes, open, k0, q, g_of(s, start, gseq_b, p) + step_cost(s, q));
        }
    }
    assert forall|p: Position| #[trigger] expanded(s, closed_a, start, sx_a, p) && p != start
        implies cheapest_cost(s, start, p, g_of(s, start, gseq_a, p)) by {
        if p != c {
            assert(expanded(s, closed_b, start, sx_b, p));
            assert(g_of(s, start, gseq_a, p) == g_of(s, start, gseq_b, p));
        }
    }
}

proof fn lemma_cell_index_bound(w: int, h: int, p: Position)
    requires
        0 <= p.x < w,
        0 <= p.y < h,
    ensures
        0 <= cell_index(w, p) < w * h,
{
    assert(p.y * w + p.x < w * h) by (nonlinear_arith)
        requires
            0 <= p.x < w,
            0 <= p.y < h,
    ;
    assert(0 <= p.y * w) by (nonlinear_arith)
        requires
            0 <= p.y,
            0 <= w,
    ;
}

proof fn lemma_cell_index_injective(w: int, p: Position, q: Position)
    requires
        0 <= p.x < w,
        0 <= q.x < w,
        cell_index(w, p) == cell_index(w, q),
    ensures
        p == q,
{
    assert(p.y == q.y) by (nonlinear_arith)
        requires
            0 <= p.x < w,
            0 <= q.x < w,
            p.y * w + p.x == q.y * w + q.x,
    ;
}

/// With an empty open list, every walk from an expanded start stays inside the
/// expanded cells; so it cannot end at a cell that was never expanded.
proof fn lemma_walk_expanded(s: &GameState, closed: Seq<bool>, start: Position, sx: bool, nodes: Seq<SearchNode>, end: Position, path: Seq<Position>)
    requires
        frontier_except(s, closed, start, sx, nodes, Seq::<usize>::empty(), None),
        expanded(s, closed, start, sx, start),
        is_walk(s, start, end, path),
    ensures
        forall|i: int| 0 <= i < path.len() ==> expanded(s, closed, start, sx, #[trigger] path[i]),
{
    assert forall|i: int| 0 <= i < path.len() implies expanded(s, closed, start, sx, #[trigger] path[i]) by {
        lemma_walk_prefix_expanded(s, closed, start, sx, nodes, end, path, i);
    }
}

proof fn lemma_walk_prefix_expanded(s: &GameState, closed: Seq<bool>, start: Position, sx: bool, nodes: Seq<SearchNode>, end: Position, path: Seq<Position>, i: int)
    requires
        frontier_except(s, closed, start, sx, nodes, Seq::<usize>::empty(), None),
        expanded(s, closed, start, sx, start),
        is_walk(s, start, end, path),
        0 <= i < path.len(),
    ensures
        expanded(s, closed, start, sx, path[i]),
    decreases i,
{
    let prev = if i == 0 { start } else { path[i - 1] };
    if i > 0 {
        lemma_walk_prefix_expanded(s, closed, start, sx, nodes, end, path, i - 1);
        assert(is_neighbor(path[i - 1], path[i]));
    }
    assert(is_neighbor(prev, path[i]));
    let d = choose|d: int| 0 <= d < 6 && neighbor_at(prev, d) == path[i];
    assert(!s.blocked(path[i]));
    assert(covered(s, closed, start, sx, nodes, Seq::<usize>::empty(), neighbor_at(prev, d)));
}

/// Putting a cell in front of a walk adds the cost of entering it.
proof fn lemma_walk_cost_cons(s: &GameState, q: Position, v: Seq<Position>)
    ensures
        walk_cost(s, seq![q] + v) == step_cost(s, q) + walk_cost(s, v),
{
    let t = seq![q] + v;
    lemma_walk_cost_split(s, t, 1);
    assert(t.take(1) =~= seq![q]);
    assert(t.skip(1) =~= v);
    lemma_walk_cost_single(s, q);
}

/// Every frontier entry within a cost bound is in particular in the open list.
proof fn lemma_frontier_costs_covered(s: &GameState, closed: Seq<bool>, start: Position, sx: bool, gseq: Seq<int>, nodes: Seq<SearchNode>, open: Seq<usize>, c: Option<Position>)
    requires
        frontier_costs(s, closed, start, sx, gseq, nodes, open, c),
    ensures
        frontier_except(s, closed, start, sx, nodes, open, c),
{
    assert forall|p: Position, d: int|
        expanded(s, closed, start, sx, p) && Some(p) != c && 0 <= d < 6 && !s.blocked(#[trigger] neighbor_at(p, d))
        implies covered(s, closed, start, sx, nodes, open, neighbor_at(p, d)) by {
        let q = neighbor_at(p, d);
        if !expanded(s, closed, start, sx, q) {
            let b = g_of(s, start, gseq, p) + step_cost(s, q);
            assert(in_open_within(nodes, open, q, b));
            let k = choose|k: int| 0 <= k < open.len() && #[trigger] nodes[open[k] as int].pos == q && nodes[open[k] as int].g <= b;
            assert(nodes[open[k] as int].pos == q);
        }
    }
}

/// Follow parent links from node `e` back to the start and lay the cells out in walking order.
fn reconstruct(Ghost(s): Ghost<&GameState>, nodes: &Vec<SearchNode>, e: usize, start: Position, end: Position) -> (path: Vec<Position>)
    requires
        nodes_ok(s, start, nodes@),
        costs_ok(s, end, nodes@),
        1 <= e < nodes@.len(),
        nodes@[e as int].pos == end,
    ensures
        is_walk(s, start, end, path@),
        walk_cost(s, path@) == nodes@[e as int].g,
        path@ == trace(nodes@, e as int),
{
    let mut rev: Vec<Position> = Vec::new();
    let mut cur: usize = e;
    proof {
        assert(rev@.reverse() =~= Seq::<Position>::empty());
        assert(trace(nodes@, e as int) + rev@.reverse() =~= trace(nodes@, e as int));
        assert(walk_cost(s, Seq::<Position>::empty()) == 0) by {
            assert(Seq::<Position>::empty().map_values(|x: Position| step_cost(s, x)) =~= Seq::<int>::empty());
        }
    }
    while cur != 0
        invariant
            nodes_ok(s, start, nodes@),
            costs_ok(s, end, nodes@),
            cur < nodes@.len(),
            cur <= e,
            cur == e <==> rev@.len() == 0,
            rev@.len() > 0 ==> rev@[0] == end,
            rev@.len() == 0 ==> nodes@[cur as int].pos == end,
            rev@.len() > 0 ==> is_neighbor(nodes@[cur as int].pos, rev@.last()),
            forall|j: int| 0 <= j < rev@.len() - 1 ==> is_neighbor(#[trigger] rev@[j + 1], rev@[j]),
            forall|j: int| 0 <= j < rev@.len() ==> !s.blocked(#[trigger] rev@[j]),
            nodes@[e as int].g == nodes@[cur as int].g + walk_cost(s, rev@.reverse()),
            trace(nodes@, e as int) == trace(nodes@, cur as int) + rev@.reverse(),
        decreases cur,
    {
        let node = nodes[cur];
        assert(nodes@[cur as int].parent < cur);
        let ghost before = rev@;
        rev.push(node.pos);
        proof {
            assert(rev@.reverse() =~= seq![node.pos] + before.reverse());
            lemma_walk_cost_cons(s, node.pos, before.reverse());
            let tp = trace(nodes@, node.parent as int);
            lemma_trace_step(nodes@, cur as int);
            assert(tp.push(node.pos) + before.reverse() =~= tp + (seq![node.pos] + before.reverse()));
        }
        cur = node.parent;
    }
    assert(nodes@[0].pos == start);
    let n = rev.len();
    let mut path: Vec<Position> = Vec::new();
    let mut i: usize = 0;
    while i < n
        invariant
            n == rev@.len(),
            n > 0,
            0 <= i <= n,
            path@.len() == i,
            forall|j: int| 0 <= j < i ==> #[trigger] path@[j] == rev@[n - 1 - j],
        decreases n - i,
    {
        path.push(rev[n - 1 - i]);
        i = i + 1;
    }
    assert(path@ =~= rev@.reverse());
    proof { lemma_trace_step(nodes@, e as int); }
    assert(trace(nodes@, e as int) =~= rev@.reverse());
    assert forall|j: int| 0 <= j < path@.len() - 1 implies is_neighbor(#[trigger] path@[j], path@[j + 1]) by {
        assert(path@[j] == rev@[n - 1 - j]);
        assert(path@[j + 1] == rev@[n - 1 - (j + 1)]);
        assert(rev@[(n - 2 - j) + 1] == rev@[n - 1 - j]);
    }
    assert forall|j: int| 0 <= j < path@.len() implies !s.blocked(#[trigger] path@[j]) by {
        assert(path@[j] == rev@[n - 1 - j]);
    }
    path
}

/// A* pathfinding on the hex grid.
/// Returns path from start (exclusive) to end (inclusive).
#[verifier::rlimit(60)]
pub fn find_path(state: &GameState, start: Position, end: Position) -> (path: Vec<Position>)
    requires
        state.terrain_ok(),
        coord_ok(start),
    ensures
        path_found(state, start, end, path@),
{
    proof { lemma_ground_agrees(state, end); }
    if start == end {
        return Vec::new();
    }
    if state.is_blocked(end.x, end.y) {
        return Vec::new();
    }
    let ghost s = state;
    let ghost g = ground(state);
    let w: usize = state.map_width as usize;
    let h: usize = state.map_height as usize;
    assert(w * h <= 0x1000_0000) by (nonlinear_arith)
        requires
            w <= 0x4000,
            h <= 0x4000,
    ;
    let cells: usize = w * h;
    let mut closed: Vec<bool> = Vec::new();
    let mut c: usize = 0;
    while c < cells
        invariant
            0 <= c <= cells,
            closed@.len() == c,
            count_false(closed@) == c,
            forall|k: int| 0 <= k < c ==> !(#[trigger] closed@[k]),
        decreases cells - c,
    {
        let ghost before = closed@;
        closed.push(false);
        assert(closed@.drop_last() =~= before);
        c = c + 1;
    }
    let mut sx: bool = false;
    let ghost mut gseq: Seq<int> = Seq::new(cells as nat, |i: int| 0int);
    let h0: u32 = hex_distance(start, end);
    let mut nodes: Vec<SearchNode> = Vec::new();
    nodes.push(SearchNode { pos: start, g: 0, f: 2 * (h0 as u64), parent: 0 });
    let mut open: Vec<usize> = Vec::new();
    open.push(0);
    proof {
        lemma_cell_index_bound(w as int, h as int, end);
        assert forall|p: Position| !expanded(state, closed@, start, sx, p) by {
            if state.in_bounds(p) {
                lemma_cell_index_bound(w as int, h as int, p);
            }
        }
        assert(open@ =~= seq![0usize]);
        assert(closed@ =~= Seq::new((g.width * g.height) as nat, |i: int| false));
        assert(nodes@ =~= start_search(g, start, end).nodes);
        assert(search_of(closed@, sx, nodes@, open@) == start_search(g, start, end));
    }
    let ghost mut fuel: nat = search_fuel(g);
    while open.len() > 0
        invariant
            s == state,
            state.terrain_ok(),
            coord_ok(start),
            start != end,
            !state.blocked(end),
            w == state.map_width,
            h == state.map_height,
            cells == w * h,
            cells <= 0x1000_0000,
            closed@.len() == cells,
            gseq.len() == cells,
            state.in_bounds(start) ==> !sx,
            nodes_ok(state, start, nodes@),
            costs_ok(state, end, nodes@),
            forall|i: int| 1 <= i < nodes@.len() ==> (#[trigger] nodes@[i]).pos != start,
            forall|k: int| 0 <= k < open@.len() ==> (#[trigger] open@[k]) < nodes@.len(),
            frontier_costs(state, closed@, start, sx, gseq, nodes@, open@, None),
            settled(state, closed@, start, sx, gseq),
            !expanded(state, closed@, start, sx, start) ==> open@ == seq![0usize],
            !expanded(state, closed@, start, sx, end),
            nodes@.len() + 6 * (count_false(closed@) + (if sx { 0int } else { 1int })) <= 1 + 6 * (cells + 1),
            g == ground(state),
            search_run(g, start, end, search_of(closed@, sx, nodes@, open@), fuel)
                == search_run(g, start, end, start_search(g, start, end), search_fuel(g)),
            7 * (count_false(closed@) + (if sx { 0int } else { 1int })) + open@.len() <= fuel,
        decreases 7 * (count_false(closed@) + (if sx { 0int } else { 1int })) + open@.len(),
    {
        // Take the open entry with the least estimated total cost.
        let mut best: usize = 0;
        let mut k: usize = 1;
        while k < open.len()
            invariant
                0 <= best < open@.len(),
                1 <= k <= open@.len(),
                forall|j: int| 0 <= j < open@.len() ==> (#[trigger] open@[j]) < nodes@.len(),
                forall|j: int| 0 <= j < k ==> nodes@[open@[best as int] as int].f <= #[trigger] nodes@[open@[j] as int].f,
                best as int == best_in(nodes@, open@, k as int),
            decreases open@.len() - k,
        {
            if nodes[open[k]].f < nodes[open[best]].f {
                best = k;
            }
            k = k + 1;
        }
        let ghost open_before = open@;
        let ghost here = search_of(closed@, sx, nodes@, open@);
        let ci = open.swap_remove(best);
        let cur = nodes[ci];
        proof {
            assert forall|k2: int| 0 <= k2 < open@.len() implies (#[trigger] open@[k2]) < nodes@.len() by {
                if k2 == best as int {
                    assert(open@[k2] == open_before.last());
                    assert(open_before[open_before.len() - 1] < nodes@.len());
                } else {
                    assert(open@[k2] == open_before[k2]);
                }
            }
            assert(open@ =~= open_before.update(best as int, open_before.last()).drop_last());
            if !expanded(state, closed@, start, sx, start) {
                assert(ci == 0);
            }
        }
        // The popped cell was expanded before: skip it.
        let inb = cur.pos.x >= 0 && cur.pos.y >= 0 && (cur.pos.x as u32) < state.map_width
            && (cur.pos.y as u32) < state.map_height;
        let already: bool = if inb {
            proof { lemma_cell_index_bound(w as int, h as int, cur.pos); }
            closed[(cur.pos.y as usize) * w + (cur.pos.x as usize)]
        } else {
            cur.pos == start && sx
        };
        assert(already == expanded(state, closed@, start, sx, cur.pos));
        if cur.pos == end {
            assert(ci != 0);
            proof {
                assert forall|wk: Seq<Position>| is_walk(state, start, end, wk) implies cur.g <= walk_cost(state, wk) by {
                    lemma_pop_cheapest(state, closed@, start, sx, gseq, nodes@, open_before, best as int, end, wk);
                }
            }
            let path = reconstruct(Ghost(state), &nodes, ci, start, end);
            proof {
                lemma_run_found(g, start, end, here, fuel, best as int);
            }
            return path;
        }
        proof {
            lemma_ground_agrees(state, cur.pos);
            assert(already == g_expanded(g, closed@, start, sx, cur.pos));
        }
        if already {
            proof {
                lemma_frontier_costs_skip(state, closed@, start, sx, gseq, nodes@, open_before, best as int);
                lemma_run_skip(g, start, end, here, fuel, best as int);
                fuel = (fuel - 1) as nat;
            }
            continue;
        }
        // Expand the popped cell.
        let ghost rest = search_of(closed@, sx, nodes@, open@);
        proof { lemma_run_expand(g, start, end, here, fuel, best as int); }
        let ghost closed_before = closed@;
        let ghost sx_before = sx;
        let ghost gseq_before = gseq;
        proof {
            if cur.pos != start {
                assert forall|wk: Seq<Position>| is_walk(state, start, cur.pos, wk) implies cur.g <= walk_cost(state, wk) by {
                    lemma_pop_cheapest(state, closed@, start, sx, gseq, nodes@, open_before, best as int, end, wk);
                }
            }
        }
        if inb {
            let idx = (cur.pos.y as usize) * w + (cur.pos.x as usize);
            proof {
                lemma_count_false_set(closed@, idx as int);
                gseq = gseq.update(idx as int, cur.g as int);
            }
            closed.set(idx, true);
        } else {
            assert(ci == 0);
            sx = true;
        }
        proof {
            assert forall|q: Position| expanded(state, closed_before, start, sx_before, q)
                implies expanded(state, closed@, start, sx, q) by {
                if state.in_bounds(q) && inb {
                    lemma_cell_index_bound(w as int, h as int, q);
                    lemma_cell_index_bound(w as int, h as int, cur.pos);
                }
            }
            assert(expanded(state, closed@, start, sx, cur.pos));
            assert forall|q: Position| expanded(state, closed@, start, sx, q) && q != cur.pos
                implies expanded(state, closed_before, start, sx_before, q) by {
                if state.in_bounds(q) && inb {
                    lemma_cell_index_bound(w as int, h as int, q);
                    lemma_cell_index_bound(w as int, h as int, cur.pos);
                    if cell_index(w as int, q) == cell_index(w as int, cur.pos) {
                        lemma_cell_index_injective(w as int, q, cur.pos);
                    }
                }
            }
            assert forall|q: Position| #[trigger] expanded(state, closed@, start, sx, q)
                <==> expanded(state, closed_before, start, sx_before, q) || q == nodes@[open_before[best as int] as int].pos by {
                assert(nodes@[open_before[best as int] as int] == cur);
            }
            assert forall|q: Position| expanded(state, closed_before, start, sx_before, q)
                implies g_of(state, start, gseq, q) == #[trigger] g_of(state, start, gseq_before, q) by {
                if q != start && inb {
                    lemma_cell_index_bound(w as int, h as int, q);
                    lemma_cell_index_bound(w as int, h as int, cur.pos);
                    if cell_index(w as int, q) == cell_index(w as int, cur.pos) {
                        lemma_cell_index_injective(w as int, q, cur.pos);
                    }
                }
            }
            if cur.pos != start {
                assert(g_of(state, start, gseq, cur.pos) == cur.g);
            }
            lemma_expand_keeps(state, start, closed_before, sx_before, gseq_before, closed@, sx, gseq,
                nodes@, open_before, best as int);
            assert(!expanded(state, closed@, start, sx, end));
            assert(expanded(state, closed@, start, sx, start));
            assert(g_of(state, start, gseq, cur.pos) == cur.g) by {
                if cur.pos == start {
                    assert(ci == 0);
                }
            }
            assert(search_of(closed@, sx, nodes@, open@) == mark(g, rest, cur.pos));
        }
        let ghost marked = search_of(closed@, sx, nodes@, open@);
        let ns = hex_neighbors(cur.pos);
        let ghost open_len0 = open@.len();
        let mut d: usize = 0;
        while d < 6
            invariant
                s == state,
                state.terrain_ok(),
                coord_ok(start),
                start != end,
                !state.blocked(end),
                w == state.map_width,
                h == state.map_height,
                cells == w * h,
                closed@.len() == cells,
                0 <= d <= 6,
                ci < nodes@.len(),
                nodes@[ci as int] == cur,
                expanded(state, closed@, start, sx, cur.pos),
                expanded(state, closed@, start, sx, start),
                g_of(state, start, gseq, cur.pos) == cur.g,
                coord_ok(cur.pos),
                forall|i: int| 0 <= i < 6 ==> #[trigger] ns@[i] == neighbor_at(cur.pos, i),
                nodes_ok(state, start, nodes@),
                costs_ok(state, end, nodes@),
                forall|i: int| 1 <= i < nodes@.len() ==> (#[trigger] nodes@[i]).pos != start,
                forall|k: int| 0 <= k < open@.len() ==> (#[trigger] open@[k]) < nodes@.len(),
                frontier_costs(state, closed@, start, sx, gseq, nodes@, open@, Some(cur.pos)),
                forall|d2: int| 0 <= d2 < d && !state.blocked(#[trigger] neighbor_at(cur.pos, d2))
                    ==> expanded(state, closed@, start, sx, neighbor_at(cur.pos, d2))
                        || in_open_within(nodes@, open@, neighbor_at(cur.pos, d2), cur.g + step_cost(state, neighbor_at(cur.pos, d2))),
                nodes@.len() + 6 * (count_false(closed@) + (if sx { 0int } else { 1int })) + 6 - d <= 1 + 6 * (cells + 1),
                cells <= 0x1000_0000,
                open@.len() <= open_len0 + d,
                g == ground(state),
                expand_from(g, start, end, search_of(closed@, sx, nodes@, open@), cur, ci, d as int)
                    == expand_from(g, start, end, marked, cur, ci, 0),
            decreases 6 - d,
        {
            let n = ns[d];
            let ninb = n.x >= 0 && n.y >= 0 && (n.x as u32) < state.map_width && (n.y as u32) < state.map_height;
            let nclosed: bool = if ninb {
                proof { lemma_cell_index_bound(w as int, h as int, n); }
                closed[(n.y as usize) * w + (n.x as usize)]
            } else {
                n == start && sx
            };
            assert(nclosed == expanded(state, closed@, start, sx, n));
            let ghost st_d = search_of(closed@, sx, nodes@, open@);
            proof {
                lemma_ground_agrees(state, n);
                assert(n == neighbor_at(cur.pos, d as int));
                assert(nclosed == g_expanded(g, closed@, start, sx, n));
                lemma_expand_one(g, start, end, st_d, cur, ci, d as int);
            }
            if !nclosed {
                let blocked = state.is_blocked(n.x, n.y);
                if !blocked || n == end {
                    let cost = state.get_movement_cost_halves(n.x, n.y);
                    if cost.is_some() || n == end {
                        let step: u64 = match cost {
                            Some(cst) => cst as u64,
                            None => 2,
                        };
                        assert(!state.blocked(n));
                        assert(coord_ok(n));
                        assert(step == step_cost(state, n));
                        let hn: u32 = hex_distance(n, end);
                        let ng: u64 = cur.g + step;
                        let node = SearchNode { pos: n, g: ng, f: ng + 2 * (hn as u64), parent: ci };
                        let ghost nodes_before = nodes@;
                        let ghost open_before2 = open@;
                        let new_index = nodes.len();
                        nodes.push(node);
                        open.push(new_index);
                        proof {
                            assert forall|p: Position, d3: int|
                                expanded(state, closed@, start, sx, p) && Some(p) != Some(cur.pos) && 0 <= d3 < 6
                                    && !state.blocked(#[trigger] neighbor_at(p, d3))
                                    && !expanded(state, closed@, start, sx, neighbor_at(p, d3))
                                implies in_open_within(nodes@, open@, neighbor_at(p, d3),
                                    g_of(state, start, gseq, p) + step_cost(state, neighbor_at(p, d3))) by {
                                lemma_within_push(nodes_before, open_before2, node, neighbor_at(p, d3),
                                    g_of(state, start, gseq, p) + step_cost(state, neighbor_at(p, d3)));
                            }
                            assert forall|d2: int| 0 <= d2 < d && !state.blocked(#[trigger] neighbor_at(cur.pos, d2))
                                && !expanded(state, closed@, start, sx, neighbor_at(cur.pos, d2))
                                implies in_open_within(nodes@, open@, neighbor_at(cur.pos, d2),
                                    cur.g + step_cost(state, neighbor_at(cur.pos, d2))) by {
                                lemma_within_push(nodes_before, open_before2, node, neighbor_at(cur.pos, d2),
                                    cur.g + step_cost(state, neighbor_at(cur.pos, d2)));
                            }
                            lemma_within_new(nodes_before, open_before2, node);
                            assert(n == neighbor_at(cur.pos, d as int));
                            assert(is_neighbor(cur.pos, n)) by {
                                assert(neighbor_at(cur.pos, d as int) == n);
                            }
                            assert(nodes@[new_index as int].parent == ci);
                            assert(nodes@[ci as int] == cur);
                            assert(nodes@[new_index as int] == node);
                            assert(node == child(g, end, cur, ci, n));
                        }
                    }
                }
            }
            proof {
                if !nclosed && !g_blocked(g, n) {
                    assert(nodes@ =~= st_d.nodes.push(child(g, end, cur, ci, n)));
                    assert(open@ =~= st_d.open.push(st_d.nodes.len() as usize));
                } else {
                    assert(search_of(closed@, sx, nodes@, open@) == st_d);
                }
            }
            d = d + 1;
        }
        proof {
            lemma_expand_one(g, start, end, search_of(closed@, sx, nodes@, open@), cur, ci, 0);
            fuel = (fuel - 1) as nat;
        }
        proof {
            assert forall|p: Position, d2: int|
                expanded(state, closed@, start, sx, p) && Some(p) != None::<Position> && 0 <= d2 < 6
                    && !state.blocked(#[trigger] neighbor_at(p, d2))
                implies expanded(state, closed@, start, sx, neighbor_at(p, d2))
                    || in_open_within(nodes@, open@, neighbor_at(p, d2), g_of(state, start, gseq, p) + step_cost(state, neighbor_at(p, d2))) by {
                if p != cur.pos {
                    assert(Some(p) != Some(cur.pos));
                }
            }
        }
    }
    proof {
        assert(expanded(state, closed@, start, sx, start));
        assert forall|path: Seq<Position>| !is_walk(state, start, end, path) by {
            if is_walk(state, start, end, path) {
                lemma_frontier_costs_covered(state, closed@, start, sx, gseq, nodes@, open@, None);
                assert(frontier_except(state, closed@, start, sx, nodes@, Seq::<usize>::empty(), None)) by {
                    assert(open@ =~= Seq::<usize>::empty());
                }
                lemma_walk_expanded(state, closed@, start, sx, nodes@, end, path);
                assert(path[path.len() - 1] == end);
            }
        }
        lemma_run_exhausted(g, start, end, search_of(closed@, sx, nodes@, open@), fuel);
    }
    Vec::new()
}


/// What a found path is depends only on the map and the buildings.
pub proof fn lemma_path_found_frame(a: &GameState, b: &GameState, start: Position, end: Position, path: Seq<Position>)
    requires
        a.map_width == b.map_width,
        a.map_height == b.map_height,
        a.terrain == b.terrain,
        a.buildings == b.buildings,
    ensures
        path_found(a, start, end, path) == path_found(b, start, end, path),
{
    assert forall|p: Position| a.blocked(p) == b.blocked(p) by {}
    assert forall|q: Seq<Position>| is_walk(a, start, end, q) == is_walk(b, start, end, q) by {}
    assert(reachable(a, start, end) == reachable(b, start, end));
    assert forall|q: Seq<Position>| walk_cost(a, q) == walk_cost(b, q) by {
        assert(q.map_values(|x: Position| step_cost(a, x)) =~= q.map_values(|x: Position| step_cost(b, x)));
    }
    assert(cheapest(a, start, end, path) == cheapest(b, start, end, path));
}

} // verus!
