//! A memory grid with corrupted cells: the fewest steps from one corner to the other.
use vstd::prelude::*;
use crate::text::{all_i32, fields_of, i32_fields, ints_view, lines, lines_of, parse_i32_fields, rows_view};

verus! {

/// Ledger value of a cell that no walk has reached.
pub const UNREACHED: usize = usize::MAX;

/// A grid location as column and row.
#[derive(Debug, Clone, Copy, PartialEq, Eq, Structural)]
pub struct Position {
    pub x: i32,
    pub y: i32,
}

/// A grid with blocked cells, walked from the top-left to the bottom-right corner.
#[derive(Debug)]
pub struct Maze {
    pub width: usize,
    pub height: usize,
    pub walls: Vec<bool>,
}

/// A cell in the model: column and row.
pub type Cell = (int, int);

impl Maze {
    pub open spec fn wf(&self) -> bool {
        &&& self.width > 0
        &&& self.height > 0
        &&& self.width < i32::MAX
        &&& self.height < i32::MAX
        &&& self.width * self.height <= usize::MAX
        &&& self.walls@.len() == self.width * self.height
    }

    pub open spec fn inside(&self, x: int, y: int) -> bool {
        0 <= x < self.width && 0 <= y < self.height
    }

    pub open spec fn index(&self, x: int, y: int) -> int {
        y * self.width + x
    }

    pub open spec fn open_cell(&self, x: int, y: int) -> bool {
        self.inside(x, y) && !self.walls@[self.index(x, y)]
    }

    /// One step to an open neighbour.
    pub open spec fn is_step(&self, a: Cell, b: Cell) -> bool {
        &&& self.open_cell(b.0, b.1)
        &&& ((a.0 == b.0 && (a.1 - b.1 == 1 || b.1 - a.1 == 1)) || (a.1 == b.1 && (a.0 - b.0 == 1
            || b.0 - a.0 == 1)))
    }

    pub open spec fn step_at(&self, p: Seq<Cell>, i: int) -> bool {
        self.is_step(p[i], p[i + 1])
    }

    /// A walk from `s`: the cell itself, then steps onto open cells.
    pub open spec fn is_walk(&self, s: Cell, p: Seq<Cell>) -> bool {
        &&& p.len() >= 1
        &&& p[0] == s
        &&& forall|i: int| 0 <= i < p.len() - 1 ==> #[trigger] self.step_at(p, i)
    }

    pub open spec fn exit(&self) -> Cell {
        ((self.width - 1) as int, (self.height - 1) as int)
    }

    /// Some walk from `s` reaches `c` in `k` steps.
    pub open spec fn reaches_in(&self, s: Cell, c: Cell, k: nat) -> bool {
        exists|p: Seq<Cell>| #[trigger] self.is_walk(s, p) && p.last() == c && p.len() == k + 1
    }

    /// Every finite ledger entry is the length of a walk from `s`, and `s` costs nothing.
    pub open spec fn ledger_ok(&self, s: Cell, dist: Seq<usize>) -> bool {
        &&& dist.len() == self.width * self.height
        &&& self.inside(s.0, s.1)
        &&& dist[self.index(s.0, s.1)] == 0
        &&& forall|x: int, y: int|
            #![trigger self.index(x, y)]
            self.inside(x, y) && dist[self.index(x, y)] < UNREACHED ==> self.reaches_in(
                s,
                (x, y),
                dist[self.index(x, y)] as nat,
            )
    }

    /// No step improves the ledger.
    pub open spec fn settled(&self, dist: Seq<usize>) -> bool {
        forall|a: Cell, b: Cell|
            #![trigger self.is_step(a, b)]
            self.inside(a.0, a.1) && self.is_step(a, b) ==> dist[self.index(b.0, b.1)] <= dist[self.index(
                a.0,
                a.1,
            )] + 1
    }
}

pub proof fn lemma_index(w: int, h: int, x: int, y: int)
    requires
        0 <= x < w,
        0 <= y < h,
    ensures
        0 <= y * w + x < w * h,
{
    assert(y * w <= (h - 1) * w) by (nonlinear_arith)
        requires
            0 <= y < h,
            0 <= x < w,
    ;
    assert((h - 1) * w == w * h - w) by (nonlinear_arith);
    assert(0 <= y * w) by (nonlinear_arith)
        requires
            0 <= y,
            0 <= w,
    ;
}

pub proof fn lemma_index_unique(w: int, h: int, x1: int, y1: int, x2: int, y2: int)
    requires
        0 <= x1 < w,
        0 <= y1 < h,
        0 <= x2 < w,
        0 <= y2 < h,
        y1 * w + x1 == y2 * w + x2,
    ensures
        x1 == x2 && y1 == y2,
{
    vstd::arithmetic::div_mod::lemma_fundamental_div_mod_converse(y1 * w + x1, w, y1, x1);
    vstd::arithmetic::div_mod::lemma_fundamental_div_mod_converse(y2 * w + x2, w, y2, x2);
}

pub open spec fn total(s: Seq<usize>) -> nat
    decreases s.len(),
{
    if s.len() == 0 {
        0
    } else {
        total(s.drop_last()) + s.last() as nat
    }
}

proof fn lemma_total_update(s: Seq<usize>, i: int, v: usize)
    requires
        0 <= i < s.len(),
    ensures
        total(s.update(i, v)) == total(s) - s[i] + v,
    decreases s.len(),
{
    let t = s.update(i, v);
    if i == s.len() - 1 {
        assert(t.drop_last() =~= s.drop_last());
    } else {
        assert(t.drop_last() =~= s.drop_last().update(i, v));
        lemma_total_update(s.drop_last(), i, v);
    }
}

impl Maze {
    /// A grid with the listed cells blocked; positions outside the grid are ignored.
    pub fn from_slice(width: usize, height: usize, walls_list: &[Position]) -> (r: Maze)
        requires
            0 < width < i32::MAX,
            0 < height < i32::MAX,
            width * height <= usize::MAX,
        ensures
            r.wf(),
            r.width == width && r.height == height,
            forall|x: int, y: int|
                #![trigger r.index(x, y)]
                r.inside(x, y) ==> (r.walls@[r.index(x, y)] <==> exists|k: int|
                    0 <= k < walls_list@.len() && walls_list@[k] == (Position { x: x as i32, y: y as i32 })),
    {
        let n = width * height;
        let mut walls: Vec<bool> = Vec::new();
        let mut i: usize = 0;
        while i < n
            invariant
                i <= n,
                walls@.len() == i,
                forall|j: int| 0 <= j < i ==> !walls@[j],
            decreases n - i,
        {
            walls.push(false);
            i = i + 1;
        }
        proof {
            assert forall|x: int, y: int|
                #![trigger (y * width + x)]
                0 <= x < width && 0 <= y < height implies (walls@[y * width + x] <==> exists|j: int|
                    0 <= j < 0 && walls_list@[j] == (Position { x: x as i32, y: y as i32 })) by {
                lemma_index(width as int, height as int, x, y);
            }
        }
        let mut k: usize = 0;
        while k < walls_list.len()
            invariant
                0 < width < i32::MAX,
                0 < height < i32::MAX,
                n == width * height,
                walls@.len() == n,
                k <= walls_list@.len(),
                forall|x: int, y: int|
                    #![trigger (y * width + x)]
                    0 <= x < width && 0 <= y < height ==> (walls@[y * width + x] <==> exists|j: int|
                        0 <= j < k && walls_list@[j] == (Position { x: x as i32, y: y as i32 })),
            decreases walls_list@.len() - k,
        {
            let p = walls_list[k];
            if p.x >= 0 && (p.x as usize) < width && p.y >= 0 && (p.y as usize) < height {
                proof {
                    lemma_index(width as int, height as int, p.x as int, p.y as int);
                }
                let at = (p.y as usize) * width + p.x as usize;
                walls.set(at, true);
                proof {
                    assert forall|x: int, y: int|
                        #![trigger (y * width + x)]
                        0 <= x < width && 0 <= y < height implies (walls@[y * width + x] <==> exists|j: int|
                            0 <= j < k + 1 && walls_list@[j] == (Position { x: x as i32, y: y as i32 })) by {
                        lemma_index(width as int, height as int, x, y);
                        if y * width + x == at {
                            lemma_index_unique(width as int, height as int, x, y, p.x as int, p.y as int);
                            assert(walls_list@[k as int] == (Position { x: x as i32, y: y as i32 }));
                        } else if exists|j: int| 0 <= j < k + 1 && walls_list@[j] == (Position { x: x as i32, y: y as i32 }) {
                            let j = choose|j: int| 0 <= j < k + 1 && walls_list@[j] == (Position { x: x as i32, y: y as i32 });
                            if j == k {
                                assert(p.x as int == x && p.y as int == y);
                            }
                        }
                    }
                }
            } else {
                proof {
                    assert forall|x: int, y: int|
                        #![trigger (y * width + x)]
                        0 <= x < width && 0 <= y < height implies (walls@[y * width + x] <==> exists|j: int|
                            0 <= j < k + 1 && walls_list@[j] == (Position { x: x as i32, y: y as i32 })) by {
                        if exists|j: int| 0 <= j < k + 1 && walls_list@[j] == (Position { x: x as i32, y: y as i32 }) {
                            let j = choose|j: int| 0 <= j < k + 1 && walls_list@[j] == (Position { x: x as i32, y: y as i32 });
                            if j == k {
                                assert(p.x as int == x && p.y as int == y);
                            }
                        }
                    }
                }
            }
            k = k + 1;
        }
        let r = Maze { width, height, walls };
        proof {
            assert forall|x: int, y: int|
                #![trigger r.index(x, y)]
                r.inside(x, y) implies (r.walls@[r.index(x, y)] <==> exists|j: int|
                    0 <= j < walls_list@.len() && walls_list@[j] == (Position { x: x as i32, y: y as i32 })) by {
                assert(r.index(x, y) == y * width + x);
            }
        }
        r
    }

    /// Whether the position lies in the grid.
    pub fn is_valid(&self, pos: &Position) -> (r: bool)
        requires
            self.wf(),
        ensures
            r == self.inside(pos.x as int, pos.y as int),
    {
        pos.x >= 0 && (pos.x as usize) < self.width && pos.y >= 0 && (pos.y as usize) < self.height
    }

    fn is_open(&self, x: i32, y: i32) -> (r: bool)
        requires
            self.wf(),
        ensures
            r == self.open_cell(x as int, y as int),
    {
        if !self.is_valid(&Position { x, y }) {
            return false;
        }
        proof {
            lemma_index(self.width as int, self.height as int, x as int, y as int);
        }
        !self.walls[(y as usize) * self.width + x as usize]
    }

    /// The open neighbours of `pos`: east, west, north, south.
    pub fn get_neighbors(&self, pos: &Position) -> (r: Vec<Position>)
        requires
            self.wf(),
            self.inside(pos.x as int, pos.y as int),
        ensures
            forall|i: int|
                0 <= i < r@.len() ==> self.is_step((pos.x as int, pos.y as int), (r@[i].x as int, r@[i].y as int)),
            forall|x: int, y: int|
                self.is_step((pos.x as int, pos.y as int), (x, y)) ==> exists|i: int|
                    0 <= i < r@.len() && r@[i] == (Position { x: x as i32, y: y as i32 }),
    {
        let mut out: Vec<Position> = Vec::new();
        let cands = [
            Position { x: pos.x + 1, y: pos.y },
            Position { x: pos.x - 1, y: pos.y },
            Position { x: pos.x, y: pos.y - 1 },
            Position { x: pos.x, y: pos.y + 1 },
        ];
        let mut i: usize = 0;
        while i < 4
            invariant
                self.wf(),
                self.inside(pos.x as int, pos.y as int),
                cands@ == seq![
                    Position { x: (pos.x + 1) as i32, y: pos.y },
                    Position { x: (pos.x - 1) as i32, y: pos.y },
                    Position { x: pos.x, y: (pos.y - 1) as i32 },
                    Position { x: pos.x, y: (pos.y + 1) as i32 },
                ],
                i <= 4,
                forall|j: int|
                    0 <= j < out@.len() ==> self.is_step((pos.x as int, pos.y as int), (out@[j].x as int, out@[j].y as int)),
                forall|j: int|
                    0 <= j < i && self.open_cell(cands@[j].x as int, cands@[j].y as int) ==> exists|m: int|
                        0 <= m < out@.len() && out@[m] == cands@[j],
            decreases 4 - i,
        {
            let c = cands[i];
            let ghost before = out@;
            if self.is_open(c.x, c.y) {
                out.push(c);
                proof {
                    assert forall|j: int|
                        0 <= j < i + 1 && self.open_cell(cands@[j].x as int, cands@[j].y as int) implies exists|m: int|
                            0 <= m < out@.len() && out@[m] == cands@[j] by {
                        if j < i {
                            let m = choose|m: int| 0 <= m < before.len() && before[m] == cands@[j];
                            assert(out@[m] == cands@[j]);
                        } else {
                            assert(out@[before.len() as int] == cands@[j]);
                        }
                    }
                }
            }
            i = i + 1;
        }
        proof {
            assert forall|x: int, y: int|
                self.is_step((pos.x as int, pos.y as int), (x, y)) implies exists|m: int|
                    0 <= m < out@.len() && out@[m] == (Position { x: x as i32, y: y as i32 }) by {
                if x == pos.x + 1 {
                    assert(cands@[0] == (Position { x: x as i32, y: y as i32 }));
                } else if x == pos.x - 1 {
                    assert(cands@[1] == (Position { x: x as i32, y: y as i32 }));
                } else if y == pos.y - 1 {
                    assert(cands@[2] == (Position { x: x as i32, y: y as i32 }));
                } else {
                    assert(cands@[3] == (Position { x: x as i32, y: y as i32 }));
                }
            }
        }
        out
    }
}


impl Maze {
    /// Lowers the ledger entry of `(bx, by)` through a step from `(ax, ay)`, if that helps.
    fn relax_step(&self, st: Ghost<Cell>, dist: &mut Vec<usize>, ax: i32, ay: i32, bx: i32, by: i32) -> (changed: bool)
        requires
            self.wf(),
            self.ledger_ok(st@, old(dist)@),
            self.inside(ax as int, ay as int),
            (ax == bx && (ay - by == 1 || by - ay == 1)) || (ay == by && (ax - bx == 1 || bx - ax == 1)),
        ensures
            self.ledger_ok(st@, final(dist)@),
            total(final(dist)@) <= total(old(dist)@),
            changed ==> total(final(dist)@) < total(old(dist)@),
            !changed ==> final(dist)@ == old(dist)@ && (self.is_step((ax as int, ay as int), (bx as int, by as int))
                ==> final(dist)@[self.index(bx as int, by as int)] <= final(dist)@[self.index(ax as int, ay as int)] + 1),
    {
        if !self.is_open(bx, by) {
            return false;
        }
        proof {
            lemma_index(self.width as int, self.height as int, ax as int, ay as int);
            lemma_index(self.width as int, self.height as int, bx as int, by as int);
        }
        let ai = (ay as usize) * self.width + ax as usize;
        let bi = (by as usize) * self.width + bx as usize;
        assert(ai == self.index(ax as int, ay as int));
        assert(bi == self.index(bx as int, by as int));
        let da = dist[ai];
        if da == UNREACHED {
            return false;
        }
        let cand = da + 1;
        if cand >= dist[bi] {
            return false;
        }
        proof {
            let a = (ax as int, ay as int);
            let b = (bx as int, by as int);
            assert(self.reaches_in(st@, a, da as nat));
            let p = choose|p: Seq<Cell>| #[trigger] self.is_walk(st@, p) && p.last() == a && p.len() == da + 1;
            let q = p.push(b);
            assert forall|i: int| 0 <= i < q.len() - 1 implies #[trigger] self.step_at(q, i) by {
                if i < p.len() - 1 {
                    assert(self.step_at(p, i));
                }
            }
            assert(self.is_walk(st@, q) && q.last() == b && q.len() == cand + 1);
            lemma_total_update(dist@, bi as int, cand);
        }
        let ghost before = dist@;
        dist.set(bi, cand);
        proof {
            assert forall|x: int, y: int|
                #![trigger self.index(x, y)]
                self.inside(x, y) && dist@[self.index(x, y)] < UNREACHED implies self.reaches_in(
                    st@,
                    (x, y),
                    dist@[self.index(x, y)] as nat,
                ) by {
                lemma_index(self.width as int, self.height as int, x, y);
                if self.index(x, y) == bi {
                    lemma_index_unique(self.width as int, self.height as int, x, y, bx as int, by as int);
                } else {
                    assert(before[self.index(x, y)] < UNREACHED);
                }
            }
            lemma_index(self.width as int, self.height as int, st@.0, st@.1);
        }
        true
    }

    /// Relaxes the four steps out of `(x, y)`.
    fn relax_cell(&self, st: Ghost<Cell>, dist: &mut Vec<usize>, x: i32, y: i32) -> (changed: bool)
        requires
            self.wf(),
            self.ledger_ok(st@, old(dist)@),
            self.inside(x as int, y as int),
        ensures
            self.ledger_ok(st@, final(dist)@),
            total(final(dist)@) <= total(old(dist)@),
            changed ==> total(final(dist)@) < total(old(dist)@),
            !changed ==> final(dist)@ == old(dist)@ && forall|b: Cell|
                #[trigger] self.is_step((x as int, y as int), b) ==> final(dist)@[self.index(b.0, b.1)]
                    <= final(dist)@[self.index(x as int, y as int)] + 1,
    {
        let c1 = self.relax_step(st, dist, x, y, x + 1, y);
        let c2 = self.relax_step(st, dist, x, y, x - 1, y);
        let c3 = self.relax_step(st, dist, x, y, x, y - 1);
        let c4 = self.relax_step(st, dist, x, y, x, y + 1);
        c1 || c2 || c3 || c4
    }

    /// One pass over the grid; when it changes nothing the ledger is settled.
    fn relax_round(&self, st: Ghost<Cell>, dist: &mut Vec<usize>) -> (changed: bool)
        requires
            self.wf(),
            self.ledger_ok(st@, old(dist)@),
        ensures
            self.ledger_ok(st@, final(dist)@),
            total(final(dist)@) <= total(old(dist)@),
            changed ==> total(final(dist)@) < total(old(dist)@),
            !changed ==> final(dist)@ == old(dist)@ && self.settled(final(dist)@),
    {
        let ghost start = dist@;
        let mut changed = false;
        let mut y: usize = 0;
        while y < self.height
            invariant
                self.wf(),
                y <= self.height,
                self.ledger_ok(st@, dist@),
                total(dist@) <= total(start),
                changed ==> total(dist@) < total(start),
                !changed ==> dist@ == start && forall|a: Cell, b: Cell|
                    #![trigger self.is_step(a, b)]
                    0 <= a.1 < y && 0 <= a.0 < self.width && self.is_step(a, b) ==> dist@[self.index(b.0, b.1)]
                        <= dist@[self.index(a.0, a.1)] + 1,
            decreases self.height - y,
        {
            let mut x: usize = 0;
            while x < self.width
                invariant
                    self.wf(),
                    y < self.height,
                    x <= self.width,
                    self.ledger_ok(st@, dist@),
                    total(dist@) <= total(start),
                    changed ==> total(dist@) < total(start),
                    !changed ==> dist@ == start && forall|a: Cell, b: Cell|
                        #![trigger self.is_step(a, b)]
                        ((0 <= a.1 < y && 0 <= a.0 < self.width) || (a.1 == y && 0 <= a.0 < x)) && self.is_step(a, b)
                            ==> dist@[self.index(b.0, b.1)] <= dist@[self.index(a.0, a.1)] + 1,
                decreases self.width - x,
            {
                let ch = self.relax_cell(st, dist, x as i32, y as i32);
                changed = changed || ch;
                x = x + 1;
            }
            y = y + 1;
        }
        changed
    }

    /// A settled ledger is no longer than any walk.
    proof fn lemma_bound(&self, st: Cell, dist: Seq<usize>, p: Seq<Cell>)
        requires
            self.wf(),
            self.ledger_ok(st, dist),
            self.settled(dist),
            self.is_walk(st, p),
        ensures
            dist[self.index(p.last().0, p.last().1)] <= p.len() - 1,
        decreases p.len(),
    {
        if p.len() > 1 {
            let q = p.drop_last();
            assert forall|i: int| 0 <= i < q.len() - 1 implies #[trigger] self.step_at(q, i) by {
                assert(self.step_at(p, i));
            }
            self.lemma_bound(st, dist, q);
            assert(self.step_at(p, p.len() - 2));
            if q.len() > 1 {
                assert(self.step_at(q, q.len() - 2));
            }
            assert(self.is_step(q.last(), p.last()));
        }
    }

    /// Fewest steps from `(sx, sy)` to every cell, in row-major order; `UNREACHED` where no
    /// walk leads (or every walk is at least that long).
    pub fn distances_from(&self, sx: i32, sy: i32) -> (dist: Vec<usize>)
        requires
            self.wf(),
            self.inside(sx as int, sy as int),
        ensures
            dist@.len() == self.width * self.height,
            forall|x: int, y: int|
                #![trigger self.index(x, y)]
                self.inside(x, y) ==> {
                    let d = dist@[self.index(x, y)];
                    &&& d < UNREACHED ==> self.reaches_in((sx as int, sy as int), (x, y), d as nat)
                    &&& forall|p: Seq<Cell>|
                        #[trigger] self.is_walk((sx as int, sy as int), p) && p.last() == (x, y) ==> d + 1 <= p.len()
                },
    {
        let ghost st: Cell = (sx as int, sy as int);
        let n = self.width * self.height;
        let mut dist: Vec<usize> = Vec::new();
        let mut i: usize = 0;
        while i < n
            invariant
                n == self.width * self.height,
                i <= n,
                dist@.len() == i,
                forall|j: int| 0 <= j < i ==> dist@[j] == UNREACHED,
            decreases n - i,
        {
            dist.push(UNREACHED);
            i = i + 1;
        }
        let ghost full = dist@;
        proof {
            lemma_index(self.width as int, self.height as int, sx as int, sy as int);
        }
        let si = (sy as usize) * self.width + sx as usize;
        assert(si == self.index(sx as int, sy as int));
        dist.set(si, 0);
        proof {
            assert forall|x: int, y: int|
                #![trigger self.index(x, y)]
                self.inside(x, y) && dist@[self.index(x, y)] < UNREACHED implies self.reaches_in(
                    st,
                    (x, y),
                    dist@[self.index(x, y)] as nat,
                ) by {
                lemma_index(self.width as int, self.height as int, x, y);
                if self.index(x, y) == si {
                    lemma_index_unique(self.width as int, self.height as int, x, y, sx as int, sy as int);
                    let p = seq![st];
                    assert(self.is_walk(st, p) && p.last() == (x, y) && p.len() == 0 + 1);
                } else {
                    assert(full[self.index(x, y)] == UNREACHED);
                }
            }
        }
        let mut changed = true;
        while changed
            invariant
                self.wf(),
                self.ledger_ok(st, dist@),
                !changed ==> self.settled(dist@),
            decreases total(dist@) + if changed {
                1nat
            } else {
                0nat
            },
        {
            changed = self.relax_round(Ghost(st), &mut dist);
        }
        proof {
            assert forall|x: int, y: int|
                #![trigger self.index(x, y)]
                self.inside(x, y) implies {
                    let d = dist@[self.index(x, y)];
                    &&& d < UNREACHED ==> self.reaches_in(st, (x, y), d as nat)
                    &&& forall|p: Seq<Cell>|
                        #[trigger] self.is_walk(st, p) && p.last() == (x, y) ==> d + 1 <= p.len()
                } by {
                assert forall|p: Seq<Cell>| #[trigger] self.is_walk(st, p) && p.last() == (x, y) implies dist@[self.index(x, y)] + 1 <= p.len() by {
                    self.lemma_bound(st, dist@, p);
                }
            }
        }
        dist
    }

    /// The fewest steps from the top-left corner to the bottom-right one, if it can be reached.
    pub fn shortest_path_len(&self) -> (r: Option<usize>)
        requires
            self.wf(),
        ensures
            match r {
                Some(k) => self.reaches_in((0, 0), self.exit(), k as nat) && forall|p: Seq<Cell>|
                    #[trigger] self.is_walk((0, 0), p) && p.last() == self.exit() ==> k + 1 <= p.len(),
                None => forall|p: Seq<Cell>|
                    #[trigger] self.is_walk((0, 0), p) && p.last() == self.exit() ==> p.len() > UNREACHED,
            },
    {
        let dist = self.distances_from(0, 0);
        let ex = self.width - 1;
        let ey = self.height - 1;
        proof {
            lemma_index(self.width as int, self.height as int, ex as int, ey as int);
        }
        assert(ey * self.width + ex == self.index(ex as int, ey as int));
        let d = dist[ey * self.width + ex];
        if d == UNREACHED {
            None
        } else {
            Some(d)
        }
    }
}


/// A line holds at least two comma-separated fields, all of them `i32`s.
pub open spec fn coordinate_line(line: Seq<char>) -> bool {
    all_i32(line, seq![',']) && fields_of(line, seq![',']).len() >= 2
}

/// Reads one `x,y` position per non-blank line; `None` unless every line has at least two
/// comma-separated fields, all `i32`s.
pub fn parse_walls(text: &str) -> (r: Option<Vec<Position>>)
    ensures
        match r {
            Some(ps) => ps@.len() == lines_of(text@).len() && forall|k: int|
                0 <= k < ps@.len() ==> coordinate_line(lines_of(text@)[k]) && (#[trigger] ps@[k]).x == i32_fields(
                    lines_of(text@)[k],
                    seq![','],
                )[0] && ps@[k].y == i32_fields(lines_of(text@)[k], seq![','])[1],
            None => exists|k: int| 0 <= k < lines_of(text@).len() && !coordinate_line(#[trigger] lines_of(text@)[k]),
        },
{
    let rows = lines(text);
    let seps: Vec<char> = vec![','];
    assert(seps@ =~= seq![',']);
    let mut out: Vec<Position> = Vec::new();
    let mut k: usize = 0;
    while k < rows.len()
        invariant
            rows_view(rows@) == lines_of(text@),
            seps@ == seq![','],
            k <= rows@.len(),
            out@.len() == k,
            forall|j: int| 0 <= j < k ==> #[trigger] coordinate_line(lines_of(text@)[j]),
            forall|j: int|
                0 <= j < k ==> (#[trigger] out@[j]).x == i32_fields(lines_of(text@)[j], seq![','])[0] && out@[j].y
                    == i32_fields(lines_of(text@)[j], seq![','])[1],
        decreases rows@.len() - k,
    {
        assert(lines_of(text@)[k as int] == rows@[k as int]@);
        match parse_i32_fields(&rows[k], seps.as_slice()) {
            Some(v) => {
                assert(ints_view(v@).len() == v@.len());
                if v.len() < 2 {
                    return None;
                }
                assert(ints_view(v@)[0] == v@[0] as int && ints_view(v@)[1] == v@[1] as int);
                assert(coordinate_line(lines_of(text@)[k as int]));
                let ghost before = out@;
                out.push(Position { x: v[0], y: v[1] });
                assert forall|j: int|
                    0 <= j < k + 1 implies (#[trigger] out@[j]).x == i32_fields(lines_of(text@)[j], seq![','])[0]
                        && out@[j].y == i32_fields(lines_of(text@)[j], seq![','])[1] by {
                    if j < k {
                        assert(out@[j] == before[j]);
                    }
                }
            },
            None => {
                return None;
            },
        }
        k = k + 1;
    }
    assert(rows_view(rows@).len() == rows@.len());
    assert forall|j: int| 0 <= j < out@.len() implies coordinate_line(lines_of(text@)[j]) && (#[trigger] out@[j]).x
        == i32_fields(lines_of(text@)[j], seq![','])[0] && out@[j].y == i32_fields(lines_of(text@)[j], seq![','])[1] by {
        assert(coordinate_line(lines_of(text@)[j]));
    }
    Some(out)
}

} // verus!
