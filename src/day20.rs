//! A race track: distances along it, and shortcuts through walls that save time.
use vstd::prelude::*;
use crate::day16;
use crate::day18::{self, Cell, UNREACHED};
use crate::text::lines_of;

verus! {

/// A grid location as column and row.
#[derive(Debug, Clone, Copy, PartialEq, Eq, Structural)]
pub struct Position {
    pub x: i32,
    pub y: i32,
}

/// The track, its start and end, and once computed, each cell's distance from the start.
#[derive(Debug)]
pub struct Maze {
    pub track: day18::Maze,
    pub start: Position,
    pub end: Position,
    pub visited: Vec<usize>,
}

/// Why a track could not be read.
#[derive(Debug, Clone, Copy, PartialEq, Eq, Structural)]
pub enum TrackError {
    /// The map is not a rectangle with a start and an end, or is too large.
    Malformed,
}

impl Maze {
    pub open spec fn wf(&self) -> bool {
        &&& self.track.wf()
        &&& self.track.inside(self.start.x as int, self.start.y as int)
        &&& self.track.inside(self.end.x as int, self.end.y as int)
    }

    /// Distances have been computed: `visited` holds the fewest steps from the start to
    /// each cell, `UNREACHED` where none leads.
    pub open spec fn measured(&self) -> bool {
        &&& self.visited@.len() == self.track.width * self.track.height
        &&& forall|x: int, y: int|
            #![trigger self.track.index(x, y)]
            self.track.inside(x, y) ==> {
                let d = self.visited@[self.track.index(x, y)];
                let s = (self.start.x as int, self.start.y as int);
                &&& d < UNREACHED ==> self.track.reaches_in(s, (x, y), d as nat)
                &&& forall|p: Seq<Cell>|
                    #[trigger] self.track.is_walk(s, p) && p.last() == (x, y) ==> d + 1 <= p.len()
            }
    }

    /// Reads a track: `#` walls, `S` start, `E` end, anything else open.
    pub fn parse(text: &str) -> (r: Result<Maze, TrackError>)
        ensures
            match r {
                Ok(m) => m.wf() && m.visited@.len() == 0 && exists|g: day16::Maze|
                    day16::describes(g, lines_of(text@)) && #[trigger] g.walls@ == m.track.walls@ && g.width
                        == m.track.width && g.height == m.track.height && g.start.col == m.start.x && g.start.row
                        == m.start.y && g.end.col == m.end.x && g.end.row == m.end.y,
                Err(_) => !day16::readable(lines_of(text@)) || lines_of(text@).len() >= 0x7fff_ffff
                    || lines_of(text@)[0].len() >= 0x7fff_ffff,
            },
    {
        let m = match day16::Maze::parse(text) {
            Ok(m) => m,
            Err(_) => {
                return Err(TrackError::Malformed);
            },
        };
        if m.width >= 0x7fff_ffff || m.height >= 0x7fff_ffff {
            return Err(TrackError::Malformed);
        }
        let start = Position { x: m.start.col as i32, y: m.start.row as i32 };
        let end = Position { x: m.end.col as i32, y: m.end.row as i32 };
        let ghost g = m;
        let track = day18::Maze { width: m.width, height: m.height, walls: m.walls };
        assert(g.walls@ == track.walls@);
        Ok(Maze { track, start, end, visited: Vec::new() })
    }

    /// Whether the position lies on the map.
    pub fn is_valid(&self, p: &Position) -> (r: bool)
        requires
            self.wf(),
        ensures
            r == self.track.inside(p.x as int, p.y as int),
    {
        self.track.is_valid(&day18::Position { x: p.x, y: p.y })
    }

    /// Whether the position holds a wall (positions off the map hold none).
    pub fn is_wall(&self, p: &Position) -> (r: bool)
        requires
            self.wf(),
        ensures
            r == (self.track.inside(p.x as int, p.y as int) && self.track.walls@[self.track.index(p.x as int, p.y as int)]),
    {
        if !self.is_valid(p) {
            return false;
        }
        proof {
            day18::lemma_index(self.track.width as int, self.track.height as int, p.x as int, p.y as int);
        }
        self.track.walls[(p.y as usize) * self.track.width + p.x as usize]
    }

    /// The fewest steps from the start to the end, `UNREACHED` if none leads there; the
    /// distance to every cell is kept in `visited`.
    pub fn shortest_nocheat(&mut self) -> (r: usize)
        requires
            old(self).wf(),
        ensures
            final(self).wf(),
            final(self).track == old(self).track,
            final(self).start == old(self).start,
            final(self).end == old(self).end,
            final(self).measured(),
            r == final(self).visited@[final(self).track.index(final(self).end.x as int, final(self).end.y as int)],
    {
        self.visited = self.track.distances_from(self.start.x, self.start.y);
        proof {
            day18::lemma_index(self.track.width as int, self.track.height as int, self.end.x as int, self.end.y as int);
        }
        let i = (self.end.y as usize) * self.track.width + self.end.x as usize;
        self.visited[i]
    }
}

pub open spec fn abs_diff(a: int, b: int) -> int {
    if a >= b {
        a - b
    } else {
        b - a
    }
}

/// Taxicab distance between two cells.
pub open spec fn taxicab(a: (int, int), b: (int, int)) -> int {
    abs_diff(a.0, b.0) + abs_diff(a.1, b.1)
}

impl Maze {
    /// Taxicab distance between two positions on the map.
    pub fn manhattan_distance(&self, start: &Position, end: &Position) -> (r: usize)
        requires
            self.wf(),
            self.track.inside(start.x as int, start.y as int),
            self.track.inside(end.x as int, end.y as int),
        ensures
            r == taxicab((start.x as int, start.y as int), (end.x as int, end.y as int)),
    {
        let dx = if start.x >= end.x {
            start.x - end.x
        } else {
            end.x - start.x
        };
        let dy = if start.y >= end.y {
            start.y - end.y
        } else {
            end.y - start.y
        };
        dx as usize + dy as usize
    }

    /// The time a shortcut from `(ax, ay)` to `(bx, by)` would save: both cells reached,
    /// no farther apart than `max_cheat_len`, and the saving is the gap in their distances
    /// less the shortcut's own length.
    pub open spec fn saving(&self, a: (int, int), b: (int, int), max_cheat_len: int) -> Option<int> {
        if !self.track.inside(a.0, a.1) || !self.track.inside(b.0, b.1) {
            None
        } else {
            let da = self.visited@[self.track.index(a.0, a.1)];
            let db = self.visited@[self.track.index(b.0, b.1)];
            let t = taxicab(a, b);
            if da == UNREACHED || db == UNREACHED || t > max_cheat_len || abs_diff(da as int, db as int) < t {
                None
            } else {
                Some(abs_diff(da as int, db as int) - t)
            }
        }
    }

    /// The time a shortcut between two cells would save, if it is allowed and saves any.
    pub fn cheatable(&self, start: &Position, end: &Position, max_cheat_len: usize) -> (r: Option<usize>)
        requires
            self.wf(),
            self.measured(),
        ensures
            match r {
                Some(v) => self.saving((start.x as int, start.y as int), (end.x as int, end.y as int), max_cheat_len as int) == Some(v as int),
                None => self.saving((start.x as int, start.y as int), (end.x as int, end.y as int), max_cheat_len as int) is None,
            },
    {
        if !self.is_valid(start) || !self.is_valid(end) {
            return None;
        }
        proof {
            day18::lemma_index(self.track.width as int, self.track.height as int, start.x as int, start.y as int);
            day18::lemma_index(self.track.width as int, self.track.height as int, end.x as int, end.y as int);
        }
        let da = self.visited[(start.y as usize) * self.track.width + start.x as usize];
        let db = self.visited[(end.y as usize) * self.track.width + end.x as usize];
        if da == UNREACHED || db == UNREACHED {
            return None;
        }
        let distance = self.manhattan_distance(start, end);
        if distance > max_cheat_len {
            return None;
        }
        let gap = if da >= db {
            da - db
        } else {
            db - da
        };
        if gap < distance {
            return None;
        }
        Some(gap - distance)
    }
}


impl Maze {
    /// The cell with row-major index `k`.
    pub open spec fn cell_of(&self, k: int) -> (int, int) {
        (k % self.track.width as int, k / self.track.width as int)
    }

    /// The pair of cells `i` and `j` saves at least `faster_by`.
    pub open spec fn good_pair(&self, i: int, j: int, max_cheat_len: int, faster_by: int) -> bool {
        match self.saving(self.cell_of(i), self.cell_of(j), max_cheat_len) {
            Some(v) => v >= faster_by,
            None => false,
        }
    }

    /// Cells `j` with `i < j < m` that pair well with cell `i`.
    pub open spec fn partners(&self, i: int, m: int, max_cheat_len: int, faster_by: int) -> nat
        decreases m - i,
    {
        if m <= i + 1 {
            0
        } else {
            self.partners(i, m - 1, max_cheat_len, faster_by) + if self.good_pair(i, m - 1, max_cheat_len, faster_by) {
                1nat
            } else {
                0nat
            }
        }
    }

    /// Good pairs whose first cell comes before `n`.
    pub open spec fn good_pairs(&self, n: int, max_cheat_len: int, faster_by: int) -> nat
        decreases n,
    {
        if n <= 0 {
            0
        } else {
            self.good_pairs(n - 1, max_cheat_len, faster_by) + self.partners(
                n - 1,
                (self.track.width * self.track.height) as int,
                max_cheat_len,
                faster_by,
            )
        }
    }

    fn position_of(&self, k: usize) -> (p: Position)
        requires
            self.wf(),
            k < self.track.width * self.track.height,
        ensures
            (p.x as int, p.y as int) == self.cell_of(k as int),
            self.track.inside(p.x as int, p.y as int),
    {
        let w = self.track.width;
        proof {
            vstd::arithmetic::div_mod::lemma_fundamental_div_mod(k as int, w as int);
            vstd::arithmetic::div_mod::lemma_div_pos_is_pos(k as int, w as int);
            vstd::arithmetic::div_mod::lemma_mod_pos_bound(k as int, w as int);
            if k as int / w as int >= self.track.height {
                assert(w * (k as int / w as int) >= w * self.track.height) by (nonlinear_arith)
                    requires
                        k as int / w as int >= self.track.height,
                        w > 0,
                ;
            }
        }
        Position { x: (k % w) as i32, y: (k / w) as i32 }
    }

    /// Number of unordered pairs of cells whose shortcut, at most `max_cheat_len` long,
    /// saves at least `faster_by`.
    pub fn cheats_faster_than(&self, max_cheat_len: usize, faster_by: i32) -> (r: usize)
        requires
            self.wf(),
            self.measured(),
            self.track.width * self.track.height * (self.track.width * self.track.height) <= usize::MAX,
        ensures
            r == self.good_pairs(
                (self.track.width * self.track.height) as int,
                max_cheat_len as int,
                faster_by as int,
            ),
    {
        let n = self.track.width * self.track.height;
        let mut count: usize = 0;
        let mut i: usize = 0;
        while i < n
            invariant
                self.wf(),
                self.measured(),
                n == self.track.width * self.track.height,
                n * n <= usize::MAX,
                i <= n,
                count == self.good_pairs(i as int, max_cheat_len as int, faster_by as int),
                count <= i * n,
            decreases n - i,
        {
            let a = self.position_of(i);
            let mut here: usize = 0;
            let mut j: usize = i + 1;
            while j < n
                invariant
                    self.wf(),
                    self.measured(),
                    n == self.track.width * self.track.height,
                    i < n,
                    i + 1 <= j <= n,
                    (a.x as int, a.y as int) == self.cell_of(i as int),
                    here == self.partners(i as int, j as int, max_cheat_len as int, faster_by as int),
                    here <= j,
                decreases n - j,
            {
                let b = self.position_of(j);
                match self.cheatable(&a, &b, max_cheat_len) {
                    Some(v) => {
                        if faster_by <= 0 || v >= faster_by as usize {
                            here = here + 1;
                        }
                    },
                    None => {},
                }
                j = j + 1;
            }
            proof {
                assert(count + here <= (i + 1) * n) by (nonlinear_arith)
                    requires
                        count <= i * n,
                        here <= n,
                ;
                assert((i + 1) * n <= n * n) by (nonlinear_arith)
                    requires
                        i < n,
                ;
            }
            count = count + here;
            i = i + 1;
        }
        count
    }
}


impl Maze {
    /// The position itself as a one-element list unless it holds a wall.
    pub open spec fn if_clear(&self, x: int, y: int) -> Seq<(int, int)> {
        if self.track.inside(x, y) && self.track.walls@[self.track.index(x, y)] {
            Seq::empty()
        } else {
            seq![(x, y)]
        }
    }

    fn push_if_clear(&self, out: &mut Vec<Position>, p: Position)
        requires
            self.wf(),
        ensures
            final(out)@.map_values(|q: Position| (q.x as int, q.y as int)) == old(out)@.map_values(
                |q: Position| (q.x as int, q.y as int),
            ) + self.if_clear(p.x as int, p.y as int),
    {
        let ghost before = out@;
        if !self.is_wall(&p) {
            out.push(p);
            assert(out@.map_values(|q: Position| (q.x as int, q.y as int)) =~= before.map_values(
                |q: Position| (q.x as int, q.y as int),
            ) + self.if_clear(p.x as int, p.y as int));
        } else {
            assert(out@.map_values(|q: Position| (q.x as int, q.y as int)) =~= before.map_values(
                |q: Position| (q.x as int, q.y as int),
            ) + self.if_clear(p.x as int, p.y as int));
        }
    }

    /// The neighbours of `pos` that hold no wall: east, west, north, south.
    pub fn next_options(&self, pos: &Position) -> (r: Vec<Position>)
        requires
            self.wf(),
            self.track.inside(pos.x as int, pos.y as int),
        ensures
            r@.map_values(|q: Position| (q.x as int, q.y as int)) == self.if_clear(pos.x + 1, pos.y as int)
                + self.if_clear(pos.x - 1, pos.y as int) + self.if_clear(pos.x as int, pos.y - 1) + self.if_clear(
                pos.x as int,
                pos.y + 1,
            ),
    {
        let mut out: Vec<Position> = Vec::new();
        assert(out@.map_values(|q: Position| (q.x as int, q.y as int)) =~= Seq::<(int, int)>::empty());
        self.push_if_clear(&mut out, Position { x: pos.x + 1, y: pos.y });
        self.push_if_clear(&mut out, Position { x: pos.x - 1, y: pos.y });
        self.push_if_clear(&mut out, Position { x: pos.x, y: pos.y - 1 });
        self.push_if_clear(&mut out, Position { x: pos.x, y: pos.y + 1 });
        out
    }
}

} // verus!
