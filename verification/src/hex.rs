//! Hex-grid geometry in odd-r offset coordinates (odd rows shifted right).

use vstd::prelude::*;

verus! {

/// Largest absolute coordinate the grid arithmetic is proved for.
pub const COORD_LIMIT: i32 = 0x1000_0000;

/// Largest radius `hexes_in_radius` is proved for.
pub const RADIUS_LIMIT: u32 = 0x4000;

/// A hex grid position (col, row) in odd-r offset coordinates.
#[derive(Clone, Copy, Debug, PartialEq, Eq, Hash, Structural)]
pub struct Position {
    pub x: i32,
    pub y: i32,
}

impl Position {
    pub fn new(x: i32, y: i32) -> (p: Self)
        ensures
            p.x == x,
            p.y == y,
    {
        Position { x, y }
    }
}

/// Cube coordinates for hex math.
#[derive(Clone, Copy, Debug, PartialEq, Eq, Structural)]
pub struct CubeCoord {
    pub q: i32,
    pub r: i32,
    pub s: i32,
}

/// Coordinates small enough for all grid arithmetic.
pub open spec fn coord_ok(p: Position) -> bool {
    -COORD_LIMIT <= p.x <= COORD_LIMIT && -COORD_LIMIT <= p.y <= COORD_LIMIT
}

/// The cube `q` coordinate of an offset position: `col - floor(row / 2)`.
pub open spec fn cube_q(col: int, row: int) -> int {
    col - row / 2
}

/// The cube `s` coordinate of an offset position.
pub open spec fn cube_s(col: int, row: int) -> int {
    -cube_q(col, row) - row
}

pub open spec fn abs(v: int) -> int {
    if v < 0 { -v } else { v }
}

/// Hex distance: half the sum of the absolute cube-coordinate differences.
pub open spec fn hex_dist(a: Position, b: Position) -> int {
    (abs(cube_q(a.x as int, a.y as int) - cube_q(b.x as int, b.y as int))
        + abs(a.y - b.y)
        + abs(cube_s(a.x as int, a.y as int) - cube_s(b.x as int, b.y as int))) / 2
}

/// Column offset of the `i`-th neighbor direction for a row of the given parity.
pub open spec fn dir_dx(odd_row: bool, i: int) -> int {
    if !odd_row {
        if i == 0 { 1 } else if i == 1 { 0 } else if i == 2 { -1 } else if i == 3 { -1 } else if i == 4 { -1 } else { 0 }
    } else {
        if i == 0 { 1 } else if i == 1 { 1 } else if i == 2 { 0 } else if i == 3 { -1 } else if i == 4 { 0 } else { 1 }
    }
}

/// Row offset of the `i`-th neighbor direction (the same for both parities).
pub open spec fn dir_dy(i: int) -> int {
    if i == 0 { 0 } else if i == 1 { -1 } else if i == 2 { -1 } else if i == 3 { 0 } else if i == 4 { 1 } else { 1 }
}

/// The `i`-th neighbor (0 <= i < 6) of `p`, counter-clockwise starting east.
pub open spec fn neighbor_at(p: Position, i: int) -> Position {
    Position {
        x: (p.x + dir_dx(p.y % 2 != 0, i)) as i32,
        y: (p.y + dir_dy(i)) as i32,
    }
}

/// Whether `q` is one of the six neighbors of `p`.
pub open spec fn is_neighbor(p: Position, q: Position) -> bool {
    exists|i: int| 0 <= i < 6 && neighbor_at(p, i) == q
}

/// `floor(v / 2)`.
fn floor_half(v: i32) -> (h: i32)
    ensures
        h == v as int / 2,
{
    if v >= 0 {
        v / 2
    } else {
        let w: i32 = -(v + 1);
        -(w / 2) - 1
    }
}

/// Convert odd-r offset coordinates to cube coordinates. Defined wherever the
/// cube coordinates fit in an `i32` (with `q` above `i32::MIN`, so that it can be
/// negated).
pub fn offset_to_cube(col: i32, row: i32) -> (c: CubeCoord)
    requires
        i32::MIN < cube_q(col as int, row as int) <= i32::MAX,
        i32::MIN <= cube_s(col as int, row as int) <= i32::MAX,
    ensures
        c.q == cube_q(col as int, row as int),
        c.r == row,
        c.s == cube_s(col as int, row as int),
        c.q + c.r + c.s == 0,
{
    let q: i32 = col - floor_half(row);
    let r: i32 = row;
    let s: i32 = -q - r;
    CubeCoord { q, r, s }
}

fn abs_diff(a: i32, b: i32) -> (d: u32)
    requires
        -0x6000_0000 <= a <= 0x6000_0000,
        -0x6000_0000 <= b <= 0x6000_0000,
    ensures
        d == abs(a - b),
{
    if a >= b {
        (a as i64 - b as i64) as u32
    } else {
        (b as i64 - a as i64) as u32
    }
}

/// Hex distance between two positions using cube coordinates.
pub fn hex_distance(a: Position, b: Position) -> (d: u32)
    requires
        coord_ok(a),
        coord_ok(b),
    ensures
        d == hex_dist(a, b),
{
    let ac = offset_to_cube(a.x, a.y);
    let bc = offset_to_cube(b.x, b.y);
    let dq = abs_diff(ac.q, bc.q);
    let dr = abs_diff(ac.r, bc.r);
    let ds = abs_diff(ac.s, bc.s);
    (dq + dr + ds) / 2
}

/// Get the 6 hex neighbors of a position (odd-r offset coordinates).
pub fn hex_neighbors(pos: Position) -> (ns: [Position; 6])
    requires
        coord_ok(pos),
    ensures
        forall|i: int| 0 <= i < 6 ==> #[trigger] ns@[i] == neighbor_at(pos, i),
{
    let x = pos.x;
    let y = pos.y;
    if y % 2 == 0 {
        [
            Position::new(x + 1, y),
            Position::new(x, y - 1),
            Position::new(x - 1, y - 1),
            Position::new(x - 1, y),
            Position::new(x - 1, y + 1),
            Position::new(x, y + 1),
        ]
    } else {
        [
            Position::new(x + 1, y),
            Position::new(x + 1, y - 1),
            Position::new(x, y - 1),
            Position::new(x - 1, y),
            Position::new(x, y + 1),
            Position::new(x + 1, y + 1),
        ]
    }
}


/// Offset coordinates have the same row as cube `r`; the cube key of a position
/// relative to a center, used to order the cells of a hexagonal region.
pub open spec fn rel_q(center: Position, p: Position) -> int {
    cube_q(p.x as int, p.y as int) - cube_q(center.x as int, center.y as int)
}

pub open spec fn rel_r(center: Position, p: Position) -> int {
    p.y - center.y
}

/// Lexicographic order on (relative q, relative r).
pub open spec fn key_before(center: Position, p: Position, dq: int, dr: int) -> bool {
    rel_q(center, p) < dq || (rel_q(center, p) == dq && rel_r(center, p) < dr)
}

proof fn lemma_dist_bounds(center: Position, p: Position, r: int)
    requires
        0 <= r,
    ensures
        hex_dist(center, p) <= r <==> (-r <= rel_q(center, p) <= r && -r <= rel_r(center, p) <= r
            && -r <= rel_q(center, p) + rel_r(center, p) <= r),
{
}

proof fn lemma_key_determines_position(center: Position, p: Position, q: Position)
    requires
        rel_q(center, p) == rel_q(center, q),
        rel_r(center, p) == rel_r(center, q),
    ensures
        p == q,
{
}

/// How many cells of a hexagon of radius `r` lie in its columns before `dq`
/// (column `d` holds `2r + 1 - |d|` cells).
pub open spec fn hexagon_cells_before(r: int, dq: int) -> int
    decreases dq + r,
{
    if dq <= -r {
        0
    } else {
        hexagon_cells_before(r, dq - 1) + 2 * r + 1 - (if dq - 1 < 0 { 1 - dq } else { dq - 1 })
    }
}

proof fn lemma_hexagon_cells_before(r: int, d: int)
    requires
        0 <= r,
        -r <= d <= r + 1,
    ensures
        d <= 1 ==> 2 * hexagon_cells_before(r, d) == (d + r) * (d + 3 * r + 1),
        d >= 1 ==> 2 * hexagon_cells_before(r, d) == (r + 1) * (3 * r + 2) + 2 * (d - 1) * (2 * r + 1) - (d - 1) * d,
    decreases d + r,
{
    let c2 = 2 * hexagon_cells_before(r, d);
    if d > -r {
        lemma_hexagon_cells_before(r, d - 1);
        let c = hexagon_cells_before(r, d - 1);
        if d <= 1 {
            assert(c2 == 2 * c + 2 * (2 * r + d));
            assert(2 * c + 2 * (2 * r + d) == (d + r) * (d + 3 * r + 1)) by (nonlinear_arith)
                requires
                    2 * c == (d - 1 + r) * (d - 1 + 3 * r + 1),
            ;
        } else {
            assert(c2 == 2 * c + 2 * (2 * r + 2 - d));
            assert(2 * c + 2 * (2 * r + 2 - d) == (r + 1) * (3 * r + 2) + 2 * (d - 1) * (2 * r + 1) - (d - 1) * d)
                by (nonlinear_arith)
                requires
                    d >= 2,
                    2 * c == (r + 1) * (3 * r + 2) + 2 * (d - 2) * (2 * r + 1) - (d - 2) * (d - 1),
            ;
        }
    } else {
        assert(c2 == 0);
        assert((d + r) * (d + 3 * r + 1) == 0) by (nonlinear_arith)
            requires
                d + r == 0,
        ;
    }
    if d == 1 {
        assert((d + r) * (d + 3 * r + 1) == (r + 1) * (3 * r + 2) + 2 * (d - 1) * (2 * r + 1) - (d - 1) * d)
            by (nonlinear_arith)
            requires
                d == 1,
        ;
    }
}

/// A hexagon of radius `r` has `3r(r + 1) + 1` cells.
proof fn lemma_hexagon_cells(r: int)
    requires
        0 <= r,
    ensures
        hexagon_cells_before(r, r + 1) == 3 * r * (r + 1) + 1,
{
    lemma_hexagon_cells_before(r, r + 1);
    assert((r + 1) * (3 * r + 2) + 2 * r * (2 * r + 1) - r * (r + 1) == 2 * (3 * r * (r + 1) + 1)) by (nonlinear_arith);
}

/// Get all hex positions within a given radius of a center position.
pub fn hexes_in_radius(center: Position, radius: u32) -> (res: Vec<Position>)
    requires
        coord_ok(center),
        radius <= RADIUS_LIMIT,
    ensures
        forall|k: int| 0 <= k < res@.len() ==> hex_dist(center, #[trigger] res@[k]) <= radius,
        forall|p: Position| hex_dist(center, p) <= radius ==> #[trigger] res@.contains(p),
        forall|i: int, j: int| 0 <= i < j < res@.len() ==> res@[i] != res@[j],
        forall|i: int, j: int| 0 <= i < j < res@.len() ==>
            key_before(center, #[trigger] res@[i], rel_q(center, #[trigger] res@[j]), rel_r(center, res@[j])),
        res@.len() == 3 * radius * (radius + 1) + 1,
{
    let cc = offset_to_cube(center.x, center.y);
    let r: i32 = radius as i32;
    let mut result: Vec<Position> = Vec::new();
    let mut dq: i32 = -r;
    while dq <= r
        invariant
            coord_ok(center),
            r == radius,
            r <= RADIUS_LIMIT,
            cc.q == cube_q(center.x as int, center.y as int),
            cc.r == center.y,
            -r <= dq <= r + 1,
            result@.len() == hexagon_cells_before(r as int, dq as int),
            forall|k: int| 0 <= k < result@.len() ==> hex_dist(center, #[trigger] result@[k]) <= r,
            forall|k: int| 0 <= k < result@.len() ==> rel_q(center, #[trigger] result@[k]) < dq,
            forall|p: Position| hex_dist(center, p) <= r && rel_q(center, p) < dq ==> #[trigger] result@.contains(p),
            forall|i: int, j: int| 0 <= i < j < result@.len() ==> result@[i] != result@[j],
            forall|i: int, j: int| 0 <= i < j < result@.len() ==>
                key_before(center, #[trigger] result@[i], rel_q(center, #[trigger] result@[j]), rel_r(center, result@[j])),
        decreases r + 1 - dq,
    {
        let dr_min: i32 = if -r >= -dq - r { -r } else { -dq - r };
        let dr_max: i32 = if r <= -dq + r { r } else { -dq + r };
        let mut dr: i32 = dr_min;
        while dr <= dr_max
            invariant
                coord_ok(center),
                r == radius,
                r <= RADIUS_LIMIT,
                cc.q == cube_q(center.x as int, center.y as int),
                cc.r == center.y,
                -r <= dq <= r,
                dr_min == (if -r >= -dq - r { -r as int } else { -dq - r }),
                dr_max == (if r <= -dq + r { r as int } else { -dq + r }),
                dr_min <= dr <= dr_max + 1,
                result@.len() == hexagon_cells_before(r as int, dq as int) + (dr - dr_min),
                forall|k: int| 0 <= k < result@.len() ==> hex_dist(center, #[trigger] result@[k]) <= r,
                forall|k: int| 0 <= k < result@.len() ==> key_before(center, #[trigger] result@[k], dq as int, dr as int),
                forall|p: Position| hex_dist(center, p) <= r && key_before(center, p, dq as int, dr as int) ==> #[trigger] result@.contains(p),
                forall|i: int, j: int| 0 <= i < j < result@.len() ==> result@[i] != result@[j],
                forall|i: int, j: int| 0 <= i < j < result@.len() ==>
                    key_before(center, #[trigger] result@[i], rel_q(center, #[trigger] result@[j]), rel_r(center, result@[j])),
            decreases dr_max + 1 - dr,
        {
            let q: i32 = cc.q + dq;
            let r_val: i32 = cc.r + dr;
            let col: i32 = q + floor_half(r_val);
            let row: i32 = r_val;
            let np = Position::new(col, row);
            proof {
                assert(rel_q(center, np) == dq);
                assert(rel_r(center, np) == dr);
                lemma_dist_bounds(center, np, r as int);
                assert forall|k: int| 0 <= k < result@.len() implies #[trigger] result@[k] != np by {
                    assert(key_before(center, result@[k], dq as int, dr as int));
                }
            }
            let ghost old_res = result@;
            result.push(np);
            proof {
                assert forall|p: Position| hex_dist(center, p) <= r && key_before(center, p, dq as int, dr + 1) implies #[trigger] result@.contains(p) by {
                    if key_before(center, p, dq as int, dr as int) {
                        assert(old_res.contains(p));
                        let k = choose|k: int| 0 <= k < old_res.len() && old_res[k] == p;
                        assert(result@[k] == p);
                    } else {
                        lemma_key_determines_position(center, p, np);
                        assert(result@[old_res.len() as int] == p);
                    }
                }
            }
            dr = dr + 1;
        }
        proof {
            assert(result@.len() == hexagon_cells_before(r as int, dq + 1));
            assert forall|p: Position| hex_dist(center, p) <= r && rel_q(center, p) < dq + 1 implies #[trigger] result@.contains(p) by {
                lemma_dist_bounds(center, p, r as int);
                assert(key_before(center, p, dq as int, dr as int));
            }
        }
        dq = dq + 1;
    }
    proof {
        assert forall|p: Position| hex_dist(center, p) <= radius implies #[trigger] result@.contains(p) by {
            lemma_dist_bounds(center, p, r as int);
        }
        lemma_hexagon_cells(r as int);
    }
    result
}

/// Distance from a position to itself is zero.
pub proof fn lemma_hex_dist_self(a: Position)
    ensures
        hex_dist(a, a) == 0,
{
}

/// Hex distance is symmetric.
pub proof fn lemma_hex_dist_symmetric(a: Position, b: Position)
    ensures
        hex_dist(a, b) == hex_dist(b, a),
{
}

/// Distance zero means the same position.
pub proof fn lemma_hex_dist_zero(a: Position, b: Position)
    requires
        hex_dist(a, b) == 0,
    ensures
        a == b,
{
}

/// Each of the six neighbors of a position lies at hex distance one from it.
pub proof fn lemma_neighbors_at_distance_one(p: Position)
    requires
        coord_ok(p),
    ensures
        forall|i: int| 0 <= i < 6 ==> hex_dist(p, #[trigger] neighbor_at(p, i)) == 1,
{
}

/// The six neighbors of a position are pairwise distinct.
pub proof fn lemma_neighbors_distinct(p: Position)
    requires
        coord_ok(p),
    ensures
        forall|i: int, j: int| 0 <= i < j < 6 ==> neighbor_at(p, i) != neighbor_at(p, j),
{
}

/// Every cell at hex distance one from a position is one of its six neighbors.
pub proof fn lemma_distance_one_is_neighbor(p: Position, q: Position)
    requires
        coord_ok(p),
        hex_dist(p, q) == 1,
    ensures
        is_neighbor(p, q),
{
    let dq = cube_q(q.x as int, q.y as int) - cube_q(p.x as int, p.y as int);
    let dr = q.y - p.y;
    let ds = cube_s(q.x as int, q.y as int) - cube_s(p.x as int, p.y as int);
    lemma_cube_sum_even(dq, dr, ds);
    assert(abs(dq) + abs(dr) + abs(ds) == 2);
    assert(neighbor_at(p, 0) == q || neighbor_at(p, 1) == q || neighbor_at(p, 2) == q
        || neighbor_at(p, 3) == q || neighbor_at(p, 4) == q || neighbor_at(p, 5) == q);
}

/// Cube coordinates within 2^29: a looser bound than `coord_ok`, kept by every
/// step toward a cell that satisfies it.
pub open spec fn cube_ok(p: Position) -> bool {
    &&& abs(cube_q(p.x as int, p.y as int)) <= 0x2000_0000
    &&& abs(p.y as int) <= 0x2000_0000
    &&& abs(cube_s(p.x as int, p.y as int)) <= 0x2000_0000
}

/// Each cube coordinate of `c` lies between those of `a` and `b`.
pub open spec fn cube_between(a: Position, c: Position, b: Position) -> bool {
    &&& between(cube_q(a.x as int, a.y as int), cube_q(c.x as int, c.y as int), cube_q(b.x as int, b.y as int))
    &&& between(a.y as int, c.y as int, b.y as int)
    &&& between(cube_s(a.x as int, a.y as int), cube_s(c.x as int, c.y as int), cube_s(b.x as int, b.y as int))
}

pub open spec fn between(u: int, v: int, w: int) -> bool {
    (u <= v <= w) || (w <= v <= u)
}

/// How the `i`-th neighbor direction changes the cube coordinates `(q, r, s)`.
pub open spec fn dir_cube(i: int) -> (int, int, int) {
    if i == 0 { (1, 0, -1) } else if i == 1 { (1, -1, 0) } else if i == 2 { (0, -1, 1) }
    else if i == 3 { (-1, 0, 1) } else if i == 4 { (-1, 1, 0) } else { (0, 1, -1) }
}

proof fn lemma_neighbor_cube(a: Position, i: int)
    requires
        cube_ok(a),
        0 <= i < 6,
    ensures
        cube_q(neighbor_at(a, i).x as int, neighbor_at(a, i).y as int) == cube_q(a.x as int, a.y as int) + dir_cube(i).0,
        neighbor_at(a, i).y == a.y + dir_cube(i).1,
        cube_s(neighbor_at(a, i).x as int, neighbor_at(a, i).y as int) == cube_s(a.x as int, a.y as int) + dir_cube(i).2,
{
}

/// From any cell other than `b` one of its neighbors is a hex closer to `b`,
/// and it lies between the two in cube coordinates.
pub proof fn lemma_step_toward(a: Position, b: Position) -> (i: int)
    requires
        cube_ok(a),
        a != b,
    ensures
        0 <= i < 6,
        hex_dist(neighbor_at(a, i), b) == hex_dist(a, b) - 1,
        cube_between(a, neighbor_at(a, i), b),
{
    let dq = cube_q(b.x as int, b.y as int) - cube_q(a.x as int, a.y as int);
    let dr = b.y - a.y;
    let ds = cube_s(b.x as int, b.y as int) - cube_s(a.x as int, a.y as int);
    if dq == 0 && dr == 0 {
        assert(a == b);
    }
    let i: int = if dq > 0 && dr < 0 { 1 } else if dq > 0 && ds < 0 { 0 } else if dr < 0 && ds > 0 { 2 }
        else if dq < 0 && ds > 0 { 3 } else if dq < 0 && dr > 0 { 4 } else { 5 };
    lemma_neighbor_cube(a, i);
    let dq2 = dq - dir_cube(i).0;
    let dr2 = dr - dir_cube(i).1;
    let ds2 = ds - dir_cube(i).2;
    assert(abs(dq2) + abs(dr2) + abs(ds2) == abs(dq) + abs(dr) + abs(ds) - 2);
    lemma_cube_sum_even(dq, dr, ds);
    lemma_cube_sum_even(dq2, dr2, ds2);
    i
}

/// `w` leads from `a` to `b` by neighbor steps: each of its cells is a neighbor
/// of the one before (the first of `a`) and the last is `b`; it is empty only
/// when `a == b`.
pub open spec fn is_chain(a: Position, b: Position, w: Seq<Position>) -> bool {
    &&& w.len() == 0 ==> a == b
    &&& w.len() > 0 ==> w.last() == b && is_neighbor(a, w[0])
    &&& forall|i: int| 0 <= i < w.len() - 1 ==> is_neighbor(#[trigger] w[i], w[i + 1])
}

/// Hex distance counts neighbor steps: some chain of `hex_dist(a, b)` steps
/// leads from `a` to `b`.
pub proof fn lemma_shortest_chain(a: Position, b: Position) -> (w: Seq<Position>)
    requires
        cube_ok(a),
        cube_ok(b),
    ensures
        is_chain(a, b, w),
        w.len() == hex_dist(a, b),
        forall|i: int| 0 <= i < w.len() ==> cube_ok(#[trigger] w[i]),
    decreases hex_dist(a, b),
{
    if a == b {
        Seq::empty()
    } else {
        let i = lemma_step_toward(a, b);
        let c = neighbor_at(a, i);
        assert(cube_ok(c));
        assert(hex_dist(a, b) > 0) by {
            lemma_hex_dist_self(b);
        }
        let rest = lemma_shortest_chain(c, b);
        let w = seq![c] + rest;
        assert(is_neighbor(a, c));
        assert forall|k: int| 0 <= k < w.len() - 1 implies is_neighbor(#[trigger] w[k], w[k + 1]) by {
            if k == 0 {
                if rest.len() > 0 {
                    assert(w[1] == rest[0]);
                }
            } else {
                assert(w[k] == rest[k - 1] && w[k + 1] == rest[k]);
            }
        }
        assert forall|k: int| 0 <= k < w.len() implies cube_ok(#[trigger] w[k]) by {
            if k > 0 {
                assert(w[k] == rest[k - 1]);
            }
        }
        if rest.len() == 0 {
            assert(c == b);
        }
        w
    }
}

/// No chain of neighbor steps from `a` to `b` is shorter than their hex distance.
pub proof fn lemma_chain_at_least(a: Position, b: Position, w: Seq<Position>)
    requires
        cube_ok(a),
        forall|i: int| 0 <= i < w.len() ==> cube_ok(#[trigger] w[i]),
        is_chain(a, b, w),
    ensures
        hex_dist(a, b) <= w.len(),
    decreases w.len(),
{
    if w.len() == 0 {
        lemma_hex_dist_self(a);
    } else {
        let c = w[0];
        let rest = w.skip(1);
        assert(hex_dist(a, c) == 1) by {
            let d = choose|d: int| 0 <= d < 6 && neighbor_at(a, d) == c;
            lemma_neighbor_distance_one(a, d);
        }
        assert(is_chain(c, b, rest)) by {
            if rest.len() > 0 {
                assert(rest[0] == w[1]);
                assert(is_neighbor(w[0], w[1]));
                assert(rest.last() == w.last());
            }
            assert forall|k: int| 0 <= k < rest.len() - 1 implies is_neighbor(#[trigger] rest[k], rest[k + 1]) by {
                assert(rest[k] == w[k + 1] && rest[k + 1] == w[k + 2]);
            }
        }
        assert forall|k: int| 0 <= k < rest.len() implies cube_ok(#[trigger] rest[k]) by {
            assert(rest[k] == w[k + 1]);
        }
        lemma_chain_at_least(c, b, rest);
        lemma_hex_dist_triangle(a, c, b);
    }
}

proof fn lemma_neighbor_distance_one(a: Position, d: int)
    requires
        cube_ok(a),
        0 <= d < 6,
    ensures
        hex_dist(a, neighbor_at(a, d)) == 1,
{
}

/// Hex distance obeys the triangle inequality.
pub proof fn lemma_hex_dist_triangle(a: Position, b: Position, c: Position)
    ensures
        hex_dist(a, c) <= hex_dist(a, b) + hex_dist(b, c),
{
    let qa = cube_q(a.x as int, a.y as int);
    let qb = cube_q(b.x as int, b.y as int);
    let qc = cube_q(c.x as int, c.y as int);
    let sa = cube_s(a.x as int, a.y as int);
    let sb = cube_s(b.x as int, b.y as int);
    let sc = cube_s(c.x as int, c.y as int);
    let ab = abs(qa - qb) + abs(a.y - b.y) + abs(sa - sb);
    let bc = abs(qb - qc) + abs(b.y - c.y) + abs(sb - sc);
    let ac = abs(qa - qc) + abs(a.y - c.y) + abs(sa - sc);
    assert(ab % 2 == 0 && bc % 2 == 0 && ac % 2 == 0) by {
        lemma_cube_sum_even(qa - qb, a.y - b.y, sa - sb);
        lemma_cube_sum_even(qb - qc, b.y - c.y, sb - sc);
        lemma_cube_sum_even(qa - qc, a.y - c.y, sa - sc);
    }
    assert(ac <= ab + bc);
}

/// The absolute cube differences of two cells add up to an even number.
proof fn lemma_cube_sum_even(dq: int, dr: int, ds: int)
    requires
        dq + dr + ds == 0,
    ensures
        (abs(dq) + abs(dr) + abs(ds)) % 2 == 0,
{
    assert((abs(dq) + abs(dr) + abs(ds)) % 2 == 0) by (nonlinear_arith)
        requires
            dq + dr + ds == 0,
            abs(dq) == dq || abs(dq) == -dq,
            abs(dr) == dr || abs(dr) == -dr,
            abs(ds) == ds || abs(ds) == -ds,
    ;
}

/// A step to a neighbor brings a cell at most one hex closer to any other.
pub proof fn lemma_hex_dist_step(a: Position, b: Position, e: Position)
    requires
        coord_ok(a),
        is_neighbor(a, b),
    ensures
        hex_dist(a, e) <= 1 + hex_dist(b, e),
{
    lemma_neighbors_at_distance_one(a);
    let i = choose|i: int| 0 <= i < 6 && neighbor_at(a, i) == b;
    assert(hex_dist(a, neighbor_at(a, i)) == 1);
    lemma_hex_dist_triangle(a, b, e);
}

} // verus!
