//! Antennas and the antinodes that pairs of them create.
use vstd::prelude::*;

verus! {

/// A grid location as column and row.
#[derive(Debug, PartialEq, Eq, Hash)]
pub struct Position(pub i32, pub i32);

impl Position {
    /// A copy of the position.
    pub fn clone(&self) -> (r: Position)
        ensures
            r.0 == self.0 && r.1 == self.1,
    {
        Position(self.0, self.1)
    }
}

/// `v` fits in an `i32`.
pub open spec fn fits_i32(v: int) -> bool {
    i32::MIN <= v <= i32::MAX
}

/// The two antinodes of a pair: beyond each antenna, as far from it as the other one is.
pub fn find_antinodes(p0: &Position, p1: &Position) -> (r: (Position, Position))
    requires
        fits_i32(p1.0 - p0.0),
        fits_i32(p1.1 - p0.1),
        fits_i32(2 * p0.0 - p1.0),
        fits_i32(2 * p0.1 - p1.1),
        fits_i32(2 * p1.0 - p0.0),
        fits_i32(2 * p1.1 - p0.1),
    ensures
        r.0.0 == 2 * p0.0 - p1.0 && r.0.1 == 2 * p0.1 - p1.1,
        r.1.0 == 2 * p1.0 - p0.0 && r.1.1 == 2 * p1.1 - p0.1,
{
    let dx = p1.0 - p0.0;
    let dy = p1.1 - p0.1;
    (Position(p0.0 - dx, p0.1 - dy), Position(p1.0 + dx, p1.1 + dy))
}

/// The area antennas can sit in: columns `0..=x_size`, rows `0..=y_size`.
pub struct AntennaMap {
    pub x_size: usize,
    pub y_size: usize,
}

impl AntennaMap {
    pub open spec fn contains(&self, x: int, y: int) -> bool {
        0 <= x <= self.x_size && 0 <= y <= self.y_size
    }

    /// Whether the position lies in the map.
    pub fn in_map(&self, p: &Position) -> (r: bool)
        ensures
            r == self.contains(p.0 as int, p.1 as int),
    {
        if p.0 < 0 || p.1 < 0 {
            return false;
        }
        (p.0 as usize) <= self.x_size && (p.1 as usize) <= self.y_size
    }

    /// A map whose coordinates fit comfortably in `i32`.
    pub open spec fn modest_size(&self) -> bool {
        self.x_size <= 0x1fff_ffff && self.y_size <= 0x1fff_ffff
    }
}

/// `n` further points from `(x, y)`, each one step of `(dx, dy)` beyond the last.
pub open spec fn ray(x: int, y: int, dx: int, dy: int, n: nat) -> Seq<(int, int)> {
    Seq::new(n, |k: int| (x + (k + 1) * dx, y + (k + 1) * dy))
}

/// The first `n` steps from `(x, y)` stay in the map and step `n + 1` leaves it.
pub open spec fn ray_len(m: &AntennaMap, x: int, y: int, dx: int, dy: int, n: nat) -> bool {
    &&& forall|k: int| 0 <= k < n ==> #[trigger] m.contains(x + (k + 1) * dx, y + (k + 1) * dy)
    &&& !m.contains(x + (n + 1) * dx, y + (n + 1) * dy)
}

pub open spec fn positions_view(v: Seq<Position>) -> Seq<(int, int)> {
    v.map_values(|p: Position| (p.0 as int, p.1 as int))
}

/// Appends the points after `start`, stepping by `(dx, dy)`, while they stay in the map.
fn walk_ray(out: &mut Vec<Position>, start: &Position, dx: i32, dy: i32, m: &AntennaMap) -> (n: Ghost<nat>)
    requires
        m.modest_size(),
        m.contains(start.0 as int, start.1 as int),
        dx != 0 || dy != 0,
        -0x3fff_ffff <= dx <= 0x3fff_ffff,
        -0x3fff_ffff <= dy <= 0x3fff_ffff,
    ensures
        ray_len(m, start.0 as int, start.1 as int, dx as int, dy as int, n@),
        positions_view(final(out)@) == positions_view(old(out)@) + ray(
            start.0 as int,
            start.1 as int,
            dx as int,
            dy as int,
            n@,
        ),
{
    let ghost (x, y) = (start.0 as int, start.1 as int);
    let mut tx = start.0;
    let mut ty = start.1;
    let ghost mut k: nat = 0;
    loop
        invariant
            m.modest_size(),
            m.contains(tx as int, ty as int),
            dx != 0 || dy != 0,
            -0x3fff_ffff <= dx <= 0x3fff_ffff,
            -0x3fff_ffff <= dy <= 0x3fff_ffff,
            tx == x + k * dx,
            ty == y + k * dy,
            forall|j: int| 0 <= j < k ==> #[trigger] m.contains(x + (j + 1) * dx, y + (j + 1) * dy),
            positions_view(out@) == positions_view(old(out)@) + ray(x, y, dx as int, dy as int, k),
        ensures
            ray_len(m, x, y, dx as int, dy as int, k),
            positions_view(out@) == positions_view(old(out)@) + ray(x, y, dx as int, dy as int, k),
        decreases (if dx > 0 {
            m.x_size - tx
        } else if dx < 0 {
            tx as int
        } else if dy > 0 {
            m.y_size - ty
        } else {
            ty as int
        }),
    {
        let nx = tx + dx;
        let ny = ty + dy;
        proof {
            assert((k + 1) * dx == k * dx + dx) by (nonlinear_arith);
            assert((k + 1) * dy == k * dy + dy) by (nonlinear_arith);
        }
        if !m.in_map(&Position(nx, ny)) {
            break;
        }
        let ghost before = out@;
        out.push(Position(nx, ny));
        proof {
            assert(positions_view(out@) =~= positions_view(before).push((nx as int, ny as int)));
            assert(ray(x, y, dx as int, dy as int, k + 1) =~= ray(x, y, dx as int, dy as int, k).push(
                (nx as int, ny as int),
            ));
            k = k + 1;
        }
        tx = nx;
        ty = ny;
    }
    Ghost(k)
}

/// Every point in the map in line with the pair and spaced like them: both antennas, then
/// the points beyond `p0`, then those beyond `p1`, each list from nearest to farthest.
pub fn find_harmonic_antinodes(p0: &Position, p1: &Position, map: &AntennaMap) -> (r: Vec<Position>)
    requires
        map.modest_size(),
        map.contains(p0.0 as int, p0.1 as int),
        map.contains(p1.0 as int, p1.1 as int),
        p0.0 != p1.0 || p0.1 != p1.1,
    ensures
        exists|n0: nat, n1: nat|
            #[trigger] ray_len(map, p0.0 as int, p0.1 as int, p0.0 - p1.0, p0.1 - p1.1, n0) && #[trigger] ray_len(
                map,
                p1.0 as int,
                p1.1 as int,
                p1.0 - p0.0,
                p1.1 - p0.1,
                n1,
            ) && positions_view(r@) == seq![(p0.0 as int, p0.1 as int), (p1.0 as int, p1.1 as int)]
                + ray(p0.0 as int, p0.1 as int, p0.0 - p1.0, p0.1 - p1.1, n0) + ray(
                p1.0 as int,
                p1.1 as int,
                p1.0 - p0.0,
                p1.1 - p0.1,
                n1,
            ),
{
    let mut result: Vec<Position> = Vec::new();
    result.push(p0.clone());
    result.push(p1.clone());
    assert(positions_view(result@) =~= seq![(p0.0 as int, p0.1 as int), (p1.0 as int, p1.1 as int)]);
    let dx = p1.0 - p0.0;
    let dy = p1.1 - p0.1;
    let n0 = walk_ray(&mut result, p0, -dx, -dy, map);
    let n1 = walk_ray(&mut result, p1, dx, dy, map);
    proof {
        let a = seq![(p0.0 as int, p0.1 as int), (p1.0 as int, p1.1 as int)];
        let r0 = ray(p0.0 as int, p0.1 as int, p0.0 - p1.0, p0.1 - p1.1, n0@);
        let r1 = ray(p1.0 as int, p1.1 as int, p1.0 - p0.0, p1.1 - p0.1, n1@);
        assert(positions_view(result@) =~= a + r0 + r1);
    }
    result
}

} // verus!
