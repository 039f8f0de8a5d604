//! Fog of war: what each player can see.

use vstd::prelude::*;

use crate::engine::{
    GameState, MAX_MAP_DIM, World, building_ok, building_pos, grid_dims, unit_ok, unit_pos, world, world_ok,
};
use crate::hex::{Position, hex_dist, hexes_in_radius};
use crate::state::{BASE_VISION, VisibilityState, grid_view, stats_of, unit_stats};

verus! {

/// A player sees a cell when one of its units is within that unit's vision, or
/// one of its buildings is within base vision.
pub open spec fn sees(w: World, slot: u8, cell: Position) -> bool {
    ||| exists|i: int| 0 <= i < w.units.len() && #[trigger] w.units[i].player_slot == slot
            && hex_dist(unit_pos(w.units[i]), cell) <= stats_of(w.units[i].unit_type).vision
    ||| exists|i: int| 0 <= i < w.buildings.len() && #[trigger] w.buildings[i].player_slot == slot
            && hex_dist(building_pos(w.buildings[i]), cell) <= BASE_VISION
}

/// Sources among the first `ku` units and `kb` buildings.
pub open spec fn sees_partial(w: World, slot: u8, ku: int, kb: int, cell: Position) -> bool {
    ||| exists|i: int| 0 <= i < ku && #[trigger] w.units[i].player_slot == slot
            && hex_dist(unit_pos(w.units[i]), cell) <= stats_of(w.units[i].unit_type).vision
    ||| exists|i: int| 0 <= i < kb && #[trigger] w.buildings[i].player_slot == slot
            && hex_dist(building_pos(w.buildings[i]), cell) <= BASE_VISION
}

/// What was visible becomes previously seen.
pub open spec fn downgraded(v: VisibilityState) -> VisibilityState {
    if v == VisibilityState::Visible { VisibilityState::PreviouslySeen } else { v }
}

/// A cell's new visibility for a player.
pub open spec fn fog_cell(w: World, slot: u8, cell: Position, prev: VisibilityState) -> VisibilityState {
    if sees(w, slot, cell) { VisibilityState::Visible } else { downgraded(prev) }
}

/// A player's first fog: what it sees is visible, the rest unseen.
pub open spec fn first_fog_grid(s: &GameState, p: int) -> Seq<Seq<VisibilityState>> {
    let slot = s.players@[p].slot;
    Seq::new(s.map_height as nat, |y: int| Seq::new(s.map_width as nat, |x: int|
        fog_cell(world(s), slot, Position { x: x as i32, y: y as i32 }, VisibilityState::Unseen)))
}

/// A grid of `h` rows of `w` unseen cells.
pub open spec fn unseen_grid(w: int, h: int) -> Seq<Seq<VisibilityState>> {
    Seq::new(h as nat, |y: int| Seq::new(w as nat, |x: int| VisibilityState::Unseen))
}

/// The grid a player's fog starts from: its previous grid, or an unseen one for a new player.
pub open spec fn prior_grid(s: &GameState, p: int) -> Seq<Seq<VisibilityState>> {
    if p < s.visibility@.len() {
        grid_view(s.visibility@[p]@)
    } else {
        unseen_grid(s.map_width as int, s.map_height as int)
    }
}

/// The fog grid of player index `p` after recomputation.
pub open spec fn fog_grid(s: &GameState, p: int) -> Seq<Seq<VisibilityState>> {
    let g = prior_grid(s, p);
    let slot = s.players@[p].slot;
    Seq::new(s.map_height as nat, |y: int| Seq::new(s.map_width as nat, |x: int|
        fog_cell(world(s), slot, Position { x: x as i32, y: y as i32 }, g[y][x])))
}

fn unseen_rows(w: usize, h: usize) -> (g: Vec<Vec<VisibilityState>>)
    ensures
        grid_view(g@) == unseen_grid(w as int, h as int),
        grid_dims(g@, w as int, h as int),
{
    let mut g: Vec<Vec<VisibilityState>> = Vec::new();
    let mut y: usize = 0;
    while y < h
        invariant
            0 <= y <= h,
            g@.len() == y,
            forall|k: int| 0 <= k < y ==> (#[trigger] g@[k])@ == Seq::new(w as nat, |x: int| VisibilityState::Unseen),
        decreases h - y,
    {
        let mut row: Vec<VisibilityState> = Vec::new();
        let mut x: usize = 0;
        while x < w
            invariant
                0 <= x <= w,
                row@.len() == x,
                forall|k: int| 0 <= k < x ==> #[trigger] row@[k] == VisibilityState::Unseen,
            decreases w - x,
        {
            row.push(VisibilityState::Unseen);
            x = x + 1;
        }
        assert(row@ =~= Seq::new(w as nat, |x: int| VisibilityState::Unseen));
        g.push(row);
        y = y + 1;
    }
    assert(grid_view(g@) =~= unseen_grid(w as int, h as int));
    g
}

fn downgrade(grid: &mut Vec<Vec<VisibilityState>>, w: usize, h: usize)
    requires
        grid_dims(old(grid)@, w as int, h as int),
    ensures
        grid_dims(final(grid)@, w as int, h as int),
        forall|y: int, x: int| 0 <= y < h && 0 <= x < w ==>
            #[trigger] final(grid)@[y]@[x] == downgraded(old(grid)@[y]@[x]),
{
    let mut y: usize = 0;
    while y < h
        invariant
            0 <= y <= h,
            grid_dims(grid@, w as int, h as int),
            forall|yy: int, x: int| 0 <= yy < y && 0 <= x < w ==>
                #[trigger] grid@[yy]@[x] == downgraded(old(grid)@[yy]@[x]),
            forall|yy: int| y <= yy < h ==> #[trigger] grid@[yy] == old(grid)@[yy],
        decreases h - y,
    {
        let mut x: usize = 0;
        while x < w
            invariant
                0 <= y < h,
                0 <= x <= w,
                grid_dims(grid@, w as int, h as int),
                forall|yy: int, xx: int| 0 <= yy < y && 0 <= xx < w ==>
                    #[trigger] grid@[yy]@[xx] == downgraded(old(grid)@[yy]@[xx]),
                forall|yy: int| y < yy < h ==> #[trigger] grid@[yy] == old(grid)@[yy],
                forall|xx: int| 0 <= xx < x ==> #[trigger] grid@[y as int]@[xx] == downgraded(old(grid)@[y as int]@[xx]),
                forall|xx: int| x <= xx < w ==> #[trigger] grid@[y as int]@[xx] == old(grid)@[y as int]@[xx],
            decreases w - x,
        {
            if grid[y][x] == VisibilityState::Visible {
                grid[y][x] = VisibilityState::PreviouslySeen;
            }
            x = x + 1;
        }
        y = y + 1;
    }
}

fn mark_visible(grid: &mut Vec<Vec<VisibilityState>>, w: usize, h: usize, center: Position, radius: u32)
    requires
        grid_dims(old(grid)@, w as int, h as int),
        w <= 0x4000,
        h <= 0x4000,
        crate::hex::coord_ok(center),
        radius <= crate::hex::RADIUS_LIMIT,
    ensures
        grid_dims(final(grid)@, w as int, h as int),
        forall|y: int, x: int| 0 <= y < h && 0 <= x < w ==>
            #[trigger] final(grid)@[y]@[x] == if hex_dist(center, Position { x: x as i32, y: y as i32 }) <= radius {
                VisibilityState::Visible
            } else {
                old(grid)@[y]@[x]
            },
{
    let cells = hexes_in_radius(center, radius);
    let mut e: usize = 0;
    while e < cells.len()
        invariant
            0 <= e <= cells@.len(),
            w <= 0x4000,
            h <= 0x4000,
            grid_dims(grid@, w as int, h as int),
            forall|k: int| 0 <= k < cells@.len() ==> hex_dist(center, #[trigger] cells@[k]) <= radius,
            forall|y: int, x: int| 0 <= y < h && 0 <= x < w ==>
                #[trigger] grid@[y]@[x] == if exists|k: int| 0 <= k < e && cells@[k] == (Position { x: x as i32, y: y as i32 }) {
                    VisibilityState::Visible
                } else {
                    old(grid)@[y]@[x]
                },
        decreases cells@.len() - e,
    {
        let pos = cells[e];
        if pos.x >= 0 && pos.y >= 0 && (pos.x as usize) < w && (pos.y as usize) < h {
            grid[pos.y as usize][pos.x as usize] = VisibilityState::Visible;
        }
        proof {
            assert forall|y: int, x: int| 0 <= y < h && 0 <= x < w implies
                #[trigger] grid@[y]@[x] == if exists|k: int| 0 <= k < e + 1 && cells@[k] == (Position { x: x as i32, y: y as i32 }) {
                    VisibilityState::Visible
                } else {
                    old(grid)@[y]@[x]
                } by {
                let cell = Position { x: x as i32, y: y as i32 };
                if cells@[e as int] == cell {
                    assert(exists|k: int| 0 <= k < e + 1 && cells@[k] == cell);
                } else {
                    if exists|k: int| 0 <= k < e + 1 && cells@[k] == cell {
                        let k = choose|k: int| 0 <= k < e + 1 && cells@[k] == cell;
                        assert(k < e);
                    }
                }
            }
        }
        e = e + 1;
    }
    proof {
        assert forall|y: int, x: int| 0 <= y < h && 0 <= x < w implies
            #[trigger] grid@[y]@[x] == if hex_dist(center, Position { x: x as i32, y: y as i32 }) <= radius {
                VisibilityState::Visible
            } else {
                old(grid)@[y]@[x]
            } by {
            let cell = Position { x: x as i32, y: y as i32 };
            if hex_dist(center, cell) <= radius {
                assert(cells@.contains(cell));
                let k = choose|k: int| 0 <= k < cells@.len() && cells@[k] == cell;
            }
        }
    }
}

/// One player's fog over its own grid: downgrade, then light up around each source.
fn fog_for_player(s: &GameState, slot: u8, grid: &mut Vec<Vec<VisibilityState>>)
    requires
        world_ok(world(s)),
        s.map_width <= MAX_MAP_DIM,
        s.map_height <= MAX_MAP_DIM,
        grid_dims(old(grid)@, s.map_width as int, s.map_height as int),
    ensures
        grid_dims(final(grid)@, s.map_width as int, s.map_height as int),
        forall|y: int, x: int| 0 <= y < s.map_height && 0 <= x < s.map_width ==>
            #[trigger] final(grid)@[y]@[x] == fog_cell(world(s), slot, Position { x: x as i32, y: y as i32 }, old(grid)@[y]@[x]),
{
    let ghost wd = world(s);
    let w = s.map_width as usize;
    let h = s.map_height as usize;
    let ghost g0 = grid@;
    downgrade(grid, w, h);
    let mut k: usize = 0;
    while k < s.units.len()
        invariant
            0 <= k <= s.units@.len(),
            wd == world(s),
            world_ok(wd),
            w == s.map_width,
            h == s.map_height,
            w <= MAX_MAP_DIM,
            h <= MAX_MAP_DIM,
            grid_dims(grid@, w as int, h as int),
            forall|y: int, x: int| 0 <= y < h && 0 <= x < w ==>
                #[trigger] grid@[y]@[x] == if sees_partial(wd, slot, k as int, 0, Position { x: x as i32, y: y as i32 }) {
                    VisibilityState::Visible
                } else {
                    downgraded(g0[y]@[x])
                },
        decreases s.units@.len() - k,
    {
        let ghost before = grid@;
        if s.units[k].player_slot == slot {
            proof { assert(unit_ok(wd.units[k as int])); }
            let vision = unit_stats(s.units[k].unit_type).vision;
            mark_visible(grid, w, h, Position::new(s.units[k].x, s.units[k].y), vision);
        }
        proof {
            assert forall|y: int, x: int| 0 <= y < h && 0 <= x < w implies
                #[trigger] grid@[y]@[x] == if sees_partial(wd, slot, k + 1, 0, Position { x: x as i32, y: y as i32 }) {
                    VisibilityState::Visible
                } else {
                    downgraded(g0[y]@[x])
                } by {
                let cell = Position { x: x as i32, y: y as i32 };
                let u = wd.units[k as int];
                if u.player_slot == slot && hex_dist(unit_pos(u), cell) <= stats_of(u.unit_type).vision {
                    assert(sees_partial(wd, slot, k + 1, 0, cell));
                } else if sees_partial(wd, slot, k + 1, 0, cell) {
                    let i = choose|i: int| 0 <= i < k + 1 && #[trigger] wd.units[i].player_slot == slot
                        && hex_dist(unit_pos(wd.units[i]), cell) <= stats_of(wd.units[i].unit_type).vision;
                    assert(i < k);
                    assert(sees_partial(wd, slot, k as int, 0, cell));
                } else {
                    assert(!sees_partial(wd, slot, k as int, 0, cell));
                }
            }
        }
        k = k + 1;
    }
    let mut b: usize = 0;
    while b < s.buildings.len()
        invariant
            0 <= b <= s.buildings@.len(),
            wd == world(s),
            world_ok(wd),
            w == s.map_width,
            h == s.map_height,
            w <= MAX_MAP_DIM,
            h <= MAX_MAP_DIM,
            grid_dims(grid@, w as int, h as int),
            forall|y: int, x: int| 0 <= y < h && 0 <= x < w ==>
                #[trigger] grid@[y]@[x] == if sees_partial(wd, slot, wd.units.len() as int, b as int, Position { x: x as i32, y: y as i32 }) {
                    VisibilityState::Visible
                } else {
                    downgraded(g0[y]@[x])
                },
        decreases s.buildings@.len() - b,
    {
        let ghost nu = wd.units.len() as int;
        if s.buildings[b].player_slot == slot {
            proof { assert(building_ok(wd.buildings[b as int])); }
            mark_visible(grid, w, h, Position::new(s.buildings[b].x, s.buildings[b].y), BASE_VISION);
        }
        proof {
            assert forall|y: int, x: int| 0 <= y < h && 0 <= x < w implies
                #[trigger] grid@[y]@[x] == if sees_partial(wd, slot, nu, b + 1, Position { x: x as i32, y: y as i32 }) {
                    VisibilityState::Visible
                } else {
                    downgraded(g0[y]@[x])
                } by {
                let cell = Position { x: x as i32, y: y as i32 };
                let bd = wd.buildings[b as int];
                if bd.player_slot == slot && hex_dist(building_pos(bd), cell) <= BASE_VISION {
                    assert(sees_partial(wd, slot, nu, b + 1, cell));
                } else if sees_partial(wd, slot, nu, b + 1, cell) {
                    if exists|i: int| 0 <= i < b + 1 && #[trigger] wd.buildings[i].player_slot == slot
                        && hex_dist(building_pos(wd.buildings[i]), cell) <= BASE_VISION {
                        let i = choose|i: int| 0 <= i < b + 1 && #[trigger] wd.buildings[i].player_slot == slot
                            && hex_dist(building_pos(wd.buildings[i]), cell) <= BASE_VISION;
                        assert(i < b);
                    }
                    assert(sees_partial(wd, slot, nu, b as int, cell));
                } else {
                    assert(!sees_partial(wd, slot, nu, b as int, cell));
                }
            }
        }
        b = b + 1;
    }
    proof {
        assert forall|y: int, x: int| 0 <= y < h && 0 <= x < w implies
            #[trigger] grid@[y]@[x] == fog_cell(wd, slot, Position { x: x as i32, y: y as i32 }, g0[y]@[x]) by {
            let cell = Position { x: x as i32, y: y as i32 };
            assert(sees_partial(wd, slot, wd.units.len() as int, wd.buildings.len() as int, cell) == sees(wd, slot, cell));
        }
    }
}

/// Recompute every player's fog of war: a player gets a fresh unseen grid the
/// first time; what it saw before is downgraded to previously seen; every cell
/// within vision of one of its units, or within base vision of one of its
/// buildings, is visible.
pub fn compute_fog(state: &mut GameState)
    requires
        old(state).wf(),
    ensures
        final(state).visibility@.len() == if old(state).visibility@.len() < old(state).players@.len() {
            old(state).players@.len()
        } else {
            old(state).visibility@.len()
        },
        forall|p: int| 0 <= p < old(state).players@.len() ==>
            grid_view(#[trigger] final(state).visibility@[p]@) == fog_grid(old(state), p),
        forall|p: int| old(state).players@.len() <= p < old(state).visibility@.len() ==>
            #[trigger] final(state).visibility@[p] == old(state).visibility@[p],
        final(state).units == old(state).units,
        final(state).buildings == old(state).buildings,
        final(state).resource_nodes == old(state).resource_nodes,
        final(state).players == old(state).players,
        final(state).phase == old(state).phase,
        final(state).tick == old(state).tick,
        final(state).map_width == old(state).map_width,
        final(state).map_height == old(state).map_height,
        final(state).terrain == old(state).terrain,
        final(state).command_queue == old(state).command_queue,
        final(state).winner_slot == old(state).winner_slot,
        final(state).snapshot_units == old(state).snapshot_units,
        final(state).snapshot_buildings == old(state).snapshot_buildings,
        final(state).wf(),
{
    let n = state.players.len();
    let w = state.map_width as usize;
    let h = state.map_height as usize;
    let ghost s0 = *state;
    while state.visibility.len() < n
        invariant
            n == s0.players@.len(),
            w == s0.map_width,
            h == s0.map_height,
            s0.wf(),
            state.visibility@.len() >= s0.visibility@.len(),
            forall|p: int| 0 <= p < s0.visibility@.len() ==> #[trigger] state.visibility@[p] == s0.visibility@[p],
            forall|p: int| s0.visibility@.len() <= p < state.visibility@.len() ==>
                grid_view(#[trigger] state.visibility@[p]@) == unseen_grid(w as int, h as int)
                && grid_dims(state.visibility@[p]@, w as int, h as int),
            state.visibility@.len() <= if s0.visibility@.len() < n { n as int } else { s0.visibility@.len() as int },
            state.visibility@.len() < n ==> state.visibility@.len() < s0.visibility@.len() || s0.visibility@.len() < n,
            (GameState { visibility: s0.visibility, ..*state }) == s0,
        decreases n - state.visibility@.len(),
    {
        let g = unseen_rows(w, h);
        state.visibility.push(g);
    }
    let ghost s1 = *state;
    assert(forall|p: int| 0 <= p < n ==> grid_view(#[trigger] s1.visibility@[p]@) == prior_grid(&s0, p));
    let mut p: usize = 0;
    while p < n
        invariant
            0 <= p <= n,
            n == s0.players@.len(),
            s0.wf(),
            state.visibility@.len() == s1.visibility@.len(),
            n <= s1.visibility@.len(),
            forall|q: int| 0 <= q < n ==> grid_view(#[trigger] s1.visibility@[q]@) == prior_grid(&s0, q),
            forall|q: int| 0 <= q < s1.visibility@.len() ==> grid_dims(#[trigger] state.visibility@[q]@, s0.map_width as int, s0.map_height as int),
            forall|q: int| 0 <= q < p ==> grid_view(#[trigger] state.visibility@[q]@) == fog_grid(&s0, q),
            forall|q: int| p <= q < s1.visibility@.len() ==> #[trigger] state.visibility@[q] == s1.visibility@[q],
            (GameState { visibility: s0.visibility, ..*state }) == s0,
        decreases n - p,
    {
        let slot = state.players[p].slot;
        let mut grid: Vec<Vec<VisibilityState>> = Vec::new();
        std::mem::swap(&mut grid, &mut state.visibility[p]);
        let ghost g0 = grid@;
        proof {
            assert(world(state) == world(&s0));
            assert(g0 == s1.visibility@[p as int]@);
        }
        fog_for_player(state, slot, &mut grid);
        let ghost g1 = grid@;
        std::mem::swap(&mut grid, &mut state.visibility[p]);
        proof {
            let fg = fog_grid(&s0, p as int);
            let pg = prior_grid(&s0, p as int);
            assert(grid_view(g0) == pg);
            assert forall|y: int| 0 <= y < s0.map_height implies
                #[trigger] grid_view(state.visibility@[p as int]@)[y] =~= fg[y] by {
                assert forall|x: int| 0 <= x < s0.map_width implies
                    grid_view(state.visibility@[p as int]@)[y][x] == #[trigger] fg[y][x] by {
                    assert(g1[y]@[x] == fog_cell(world(&s0), slot, Position { x: x as i32, y: y as i32 }, g0[y]@[x]));
                    assert(pg[y][x] == g0[y]@[x]);
                }
            }
            assert(grid_view(state.visibility@[p as int]@) =~= fg);
        }
        p = p + 1;
    }
}

/// Every cell on the map within vision of one of a player's units is visible to
/// that player after fog is computed.
pub proof fn lemma_fog_shows_unit_vision(s: &GameState, p: int, i: int, x: int, y: int)
    requires
        0 <= p < s.players@.len(),
        0 <= i < s.units@.len(),
        s.units@[i].player_slot == s.players@[p].slot,
        0 <= x < s.map_width,
        0 <= y < s.map_height,
        hex_dist(unit_pos(s.units@[i]@), Position { x: x as i32, y: y as i32 })
            <= stats_of(s.units@[i].unit_type).vision,
    ensures
        fog_grid(s, p)[y][x] == VisibilityState::Visible,
{
    let w = world(s);
    assert(w.units[i] == s.units@[i]@);
    assert(w.units[i].player_slot == s.players@[p].slot);
    assert(sees(w, s.players@[p].slot, Position { x: x as i32, y: y as i32 }));
}

/// Every cell on the map within base vision of one of a player's buildings is
/// visible to that player after fog is computed.
pub proof fn lemma_fog_shows_building_vision(s: &GameState, p: int, i: int, x: int, y: int)
    requires
        0 <= p < s.players@.len(),
        0 <= i < s.buildings@.len(),
        s.buildings@[i].player_slot == s.players@[p].slot,
        0 <= x < s.map_width,
        0 <= y < s.map_height,
        hex_dist(building_pos(s.buildings@[i]@), Position { x: x as i32, y: y as i32 }) <= BASE_VISION,
    ensures
        fog_grid(s, p)[y][x] == VisibilityState::Visible,
{
    let w = world(s);
    assert(w.buildings[i] == s.buildings@[i]@);
    assert(w.buildings[i].player_slot == s.players@[p].slot);
    assert(sees(w, s.players@[p].slot, Position { x: x as i32, y: y as i32 }));
}

/// A cell that was visible and that no unit or building of the player sees any
/// more becomes previously seen, not unseen.
pub proof fn lemma_fog_downgrades(s: &GameState, p: int, x: int, y: int)
    requires
        s.wf(),
        0 <= p < s.players@.len(),
        p < s.visibility@.len(),
        0 <= x < s.map_width,
        0 <= y < s.map_height,
        s.visibility@[p]@[y]@[x] == VisibilityState::Visible,
        !sees(world(s), s.players@[p].slot, Position { x: x as i32, y: y as i32 }),
    ensures
        fog_grid(s, p)[y][x] == VisibilityState::PreviouslySeen,
{
    assert(grid_dims(s.visibility@[p]@, s.map_width as int, s.map_height as int));
}

/// What a player has seen stays seen: a cell that was not unseen before fog is
/// computed is not unseen after.
pub proof fn lemma_fog_remembers(s: &GameState, p: int, x: int, y: int)
    requires
        s.wf(),
        0 <= p < s.players@.len(),
        0 <= x < s.map_width,
        0 <= y < s.map_height,
        prior_grid(s, p)[y][x] != VisibilityState::Unseen,
    ensures
        fog_grid(s, p)[y][x] != VisibilityState::Unseen,
{
    if p < s.visibility@.len() {
        assert(grid_dims(s.visibility@[p]@, s.map_width as int, s.map_height as int));
    }
}

} // verus!
