//! A guard patrolling a lab: walking straight, turning right at obstacles.
use vstd::prelude::*;

verus! {

/// The guard's facing.
#[derive(Debug, Clone, Copy, PartialEq, Eq, Structural)]
pub enum Direction {
    North,
    East,
    South,
    West,
}

/// The facing a quarter turn clockwise from `d`.
pub open spec fn clockwise(d: Direction) -> Direction {
    match d {
        Direction::North => Direction::East,
        Direction::East => Direction::South,
        Direction::South => Direction::West,
        Direction::West => Direction::North,
    }
}

impl Direction {
    /// Turns a quarter turn clockwise.
    pub fn turn_right(&mut self)
        ensures
            *final(self) == clockwise(*old(self)),
    {
        *self = match *self {
            Direction::North => Direction::East,
            Direction::East => Direction::South,
            Direction::South => Direction::West,
            Direction::West => Direction::North,
        };
    }
}

} // verus!

verus! {

/// Column and row change of one step facing `d` (north is up).
pub open spec fn delta(d: Direction) -> (int, int) {
    match d {
        Direction::North => (0, -1),
        Direction::East => (1, 0),
        Direction::South => (0, 1),
        Direction::West => (-1, 0),
    }
}

/// How many entries of `s` are set.
pub open spec fn count_true(s: Seq<bool>) -> nat
    decreases s.len(),
{
    if s.len() == 0 {
        0
    } else {
        count_true(s.drop_last()) + if s.last() {
            1nat
        } else {
            0nat
        }
    }
}

proof fn lemma_count_true_set(s: Seq<bool>, i: int)
    requires
        0 <= i < s.len(),
    ensures
        count_true(s.update(i, true)) == count_true(s) + if s[i] { 0nat } else { 1nat },
        count_true(s) <= s.len(),
    decreases s.len(),
{
    let t = s.update(i, true);
    if i == s.len() - 1 {
        assert(t.drop_last() =~= s.drop_last());
    } else {
        assert(t.drop_last() =~= s.drop_last().update(i, true));
        lemma_count_true_set(s.drop_last(), i);
    }
    lemma_count_true_bound(s);
}

proof fn lemma_count_true_bound(s: Seq<bool>)
    ensures
        count_true(s) <= s.len(),
    decreases s.len(),
{
    if s.len() > 0 {
        lemma_count_true_bound(s.drop_last());
    }
}

/// The lab: its size, where obstacles stand, the guard, and the cells the guard has visited.
#[derive(Debug)]
pub struct Lab {
    pub guard_pos: (i32, i32),
    pub guard_dir: Direction,
    pub x_size: usize,
    pub y_size: usize,
    pub obstacles: Vec<bool>,
    pub visited: Vec<bool>,
    pub visited_count: usize,
}

impl Lab {
    pub open spec fn inside(&self, x: int, y: int) -> bool {
        0 <= x < self.x_size && 0 <= y < self.y_size
    }

    pub open spec fn index(&self, x: int, y: int) -> int {
        y * self.x_size + x
    }

    pub open spec fn blocked(&self, x: int, y: int) -> bool {
        self.obstacles@[self.index(x, y)]
    }

    pub open spec fn wf(&self) -> bool {
        &&& 0 < self.x_size < i32::MAX
        &&& 0 < self.y_size < i32::MAX
        &&& self.x_size * self.y_size <= usize::MAX
        &&& self.obstacles@.len() == self.x_size * self.y_size
        &&& self.visited@.len() == self.x_size * self.y_size
        &&& self.inside(self.guard_pos.0 as int, self.guard_pos.1 as int)
        &&& self.visited@[self.index(self.guard_pos.0 as int, self.guard_pos.1 as int)]
        &&& self.visited_count == count_true(self.visited@)
    }

    /// The guard's next move from `(x, y)` facing `d` after `k` turns: whether it steps,
    /// its facing, and its cell. It turns right at obstacles, stops at the edge, and stays
    /// put when boxed in on all four sides.
    pub open spec fn guard_step(&self, x: int, y: int, d: Direction, k: nat) -> (bool, Direction, (int, int))
        decreases 4 - k,
    {
        if k >= 4 {
            (false, d, (x, y))
        } else {
            let (nx, ny) = (x + delta(d).0, y + delta(d).1);
            if !self.inside(nx, ny) {
                (false, d, (x, y))
            } else if self.blocked(nx, ny) {
                self.guard_step(x, y, clockwise(d), k + 1)
            } else {
                (true, d, (nx, ny))
            }
        }
    }
}

proof fn lemma_index(w: int, h: int, x: int, y: int)
    requires
        0 <= x < w,
        0 <= y < h,
    ensures
        0 <= y * w + x < w * h,
{
    assert(y * w <= (h - 1) * w) by (nonlinear_arith)
        requires
            0 <= y < h,
            0 <= x < w,
    ;
    assert((h - 1) * w == w * h - w) by (nonlinear_arith);
    assert(0 <= y * w) by (nonlinear_arith)
        requires
            0 <= y,
            0 <= w,
    ;
}

impl Lab {
    /// A lab of the given size with the guard at `guard_pos` facing north, the listed cells
    /// blocked (those outside the lab are ignored), and only the guard's cell visited.
    pub fn new(x_size: usize, y_size: usize, guard_pos: (i32, i32), obstacles: &Vec<(i32, i32)>) -> (r: Lab)
        requires
            0 < x_size < i32::MAX,
            0 < y_size < i32::MAX,
            x_size * y_size <= usize::MAX,
            0 <= guard_pos.0 < x_size,
            0 <= guard_pos.1 < y_size,
        ensures
            r.wf(),
            r.x_size == x_size && r.y_size == y_size,
            r.guard_pos == guard_pos,
            r.guard_dir == Direction::North,
            r.visited_count == 1,
            forall|x: int, y: int|
                #![trigger r.index(x, y)]
                r.inside(x, y) ==> (r.obstacles@[r.index(x, y)] <==> exists|k: int|
                    0 <= k < obstacles@.len() && obstacles@[k] == (x as i32, y as i32)),
            forall|x: int, y: int|
                #![trigger r.index(x, y)]
                r.inside(x, y) ==> (r.visited@[r.index(x, y)] <==> (x, y) == (guard_pos.0 as int, guard_pos.1 as int)),
    {
        let n = x_size * y_size;
        let mut blocked: Vec<bool> = Vec::new();
        let mut seen: Vec<bool> = Vec::new();
        let mut i: usize = 0;
        while i < n
            invariant
                i <= n,
                blocked@.len() == i,
                seen@.len() == i,
                forall|j: int| 0 <= j < i ==> !blocked@[j] && !seen@[j],
                count_true(seen@) == 0,
            decreases n - i,
        {
            let ghost before = seen@;
            blocked.push(false);
            seen.push(false);
            assert(seen@.drop_last() =~= before);
            i = i + 1;
        }
        let mut k: usize = 0;
        proof {
            assert forall|x: int, y: int|
                #![trigger (y * x_size + x)]
                0 <= x < x_size && 0 <= y < y_size implies (blocked@[y * x_size + x] <==> exists|j: int|
                    0 <= j < 0 && obstacles@[j] == (x as i32, y as i32)) by {
                lemma_index(x_size as int, y_size as int, x, y);
            }
        }
        while k < obstacles.len()
            invariant
                0 < x_size < i32::MAX,
                0 < y_size < i32::MAX,
                n == x_size * y_size,
                blocked@.len() == n,
                k <= obstacles@.len(),
                forall|x: int, y: int|
                    #![trigger (y * x_size + x)]
                    0 <= x < x_size && 0 <= y < y_size ==> (blocked@[y * x_size + x] <==> exists|j: int|
                        0 <= j < k && obstacles@[j] == (x as i32, y as i32)),
            decreases obstacles@.len() - k,
        {
            let (ox, oy) = obstacles[k];
            if ox >= 0 && (ox as usize) < x_size && oy >= 0 && (oy as usize) < y_size {
                proof {
                    lemma_index(x_size as int, y_size as int, ox as int, oy as int);
                }
                let at = (oy as usize) * x_size + ox as usize;
                blocked.set(at, true);
                proof {
                    assert forall|x: int, y: int|
                        #![trigger (y * x_size + x)]
                        0 <= x < x_size && 0 <= y < y_size implies (blocked@[y * x_size + x] <==> exists|j: int|
                            0 <= j < k + 1 && obstacles@[j] == (x as i32, y as i32)) by {
                        lemma_index(x_size as int, y_size as int, x, y);
                        if y * x_size + x == at {
                            vstd::arithmetic::div_mod::lemma_fundamental_div_mod_converse(at as int, x_size as int, y, x);
                            vstd::arithmetic::div_mod::lemma_fundamental_div_mod_converse(at as int, x_size as int, oy as int, ox as int);
                            assert(obstacles@[k as int] == (x as i32, y as i32));
                        } else if exists|j: int| 0 <= j < k + 1 && obstacles@[j] == (x as i32, y as i32) {
                            let j = choose|j: int| 0 <= j < k + 1 && obstacles@[j] == (x as i32, y as i32);
                            if j == k {
                                assert(ox as int == x && oy as int == y);
                            }
                        }
                    }
                }
            } else {
                proof {
                    assert forall|x: int, y: int|
                        #![trigger (y * x_size + x)]
                        0 <= x < x_size && 0 <= y < y_size implies (blocked@[y * x_size + x] <==> exists|j: int|
                            0 <= j < k + 1 && obstacles@[j] == (x as i32, y as i32)) by {
                        if exists|j: int| 0 <= j < k + 1 && obstacles@[j] == (x as i32, y as i32) {
                            let j = choose|j: int| 0 <= j < k + 1 && obstacles@[j] == (x as i32, y as i32);
                            if j == k {
                                assert(ox as int == x && oy as int == y);
                            }
                        }
                    }
                }
            }
            k = k + 1;
        }
        proof {
            lemma_index(x_size as int, y_size as int, guard_pos.0 as int, guard_pos.1 as int);
        }
        let g = (guard_pos.1 as usize) * x_size + guard_pos.0 as usize;
        let ghost unseen = seen@;
        proof {
            lemma_count_true_set(unseen, g as int);
        }
        seen.set(g, true);
        let r = Lab {
            guard_pos,
            guard_dir: Direction::North,
            x_size,
            y_size,
            obstacles: blocked,
            visited: seen,
            visited_count: 1,
        };
        proof {
            assert forall|x: int, y: int|
                #![trigger r.index(x, y)]
                r.inside(x, y) implies (r.visited@[r.index(x, y)] <==> (x, y) == (guard_pos.0 as int, guard_pos.1 as int)) by {
                lemma_index(x_size as int, y_size as int, x, y);
                if r.index(x, y) == g {
                    vstd::arithmetic::div_mod::lemma_fundamental_div_mod_converse(g as int, x_size as int, y, x);
                    vstd::arithmetic::div_mod::lemma_fundamental_div_mod_converse(g as int, x_size as int, guard_pos.1 as int, guard_pos.0 as int);
                }
            }
            assert forall|x: int, y: int|
                #![trigger r.index(x, y)]
                r.inside(x, y) implies (r.obstacles@[r.index(x, y)] <==> exists|j: int|
                    0 <= j < obstacles@.len() && obstacles@[j] == (x as i32, y as i32)) by {
                assert(r.index(x, y) == y * x_size + x);
            }
        }
        r
    }
}


impl Lab {
    /// Takes the guard's next move: turning right at obstacles, stepping forward, and
    /// marking the new cell visited. Returns false when the guard would leave the lab.
    pub fn move_guard(&mut self) -> (moved: bool)
        requires
            old(self).wf(),
        ensures
            final(self).wf(),
            final(self).x_size == old(self).x_size,
            final(self).y_size == old(self).y_size,
            final(self).obstacles@ == old(self).obstacles@,
            ({
                let (m, d, p) = old(self).guard_step(
                    old(self).guard_pos.0 as int,
                    old(self).guard_pos.1 as int,
                    old(self).guard_dir,
                    0,
                );
                &&& moved == m
                &&& final(self).guard_dir == d
                &&& (final(self).guard_pos.0 as int, final(self).guard_pos.1 as int) == p
                &&& final(self).visited@ == if m {
                    old(self).visited@.update(old(self).index(p.0, p.1), true)
                } else {
                    old(self).visited@
                }
            }),
    {
        let ghost x = self.guard_pos.0 as int;
        let ghost y = self.guard_pos.1 as int;
        let ghost d0 = self.guard_dir;
        let (gx, gy) = self.guard_pos;
        let mut d = self.guard_dir;
        let mut k: usize = 0;
        loop
            invariant
                self.wf(),
                self.guard_pos == old(self).guard_pos,
                self.guard_dir == old(self).guard_dir,
                self.x_size == old(self).x_size,
                self.y_size == old(self).y_size,
                self.obstacles@ == old(self).obstacles@,
                self.visited@ == old(self).visited@,
                self.visited_count == old(self).visited_count,
                (gx as int, gy as int) == (x, y),
                d0 == old(self).guard_dir,
                x == old(self).guard_pos.0 && y == old(self).guard_pos.1,
                k <= 4,
                old(self).guard_step(x, y, d0, 0) == old(self).guard_step(x, y, d, k as nat),
            decreases 4 - k,
        {
            if k == 4 {
                self.guard_dir = d;
                return false;
            }
            let (dx, dy): (i32, i32) = match d {
                Direction::North => (0, -1),
                Direction::East => (1, 0),
                Direction::South => (0, 1),
                Direction::West => (-1, 0),
            };
            let nx = gx + dx;
            let ny = gy + dy;
            if nx < 0 || ny < 0 || nx as usize >= self.x_size || ny as usize >= self.y_size {
                self.guard_dir = d;
                return false;
            }
            proof {
                lemma_index(self.x_size as int, self.y_size as int, nx as int, ny as int);
            }
            let at = (ny as usize) * self.x_size + nx as usize;
            if self.obstacles[at] {
                d.turn_right();
                k = k + 1;
            } else {
                let ghost before = self.visited@;
                proof {
                    lemma_count_true_set(before, at as int);
                    lemma_count_true_bound(before.update(at as int, true));
                }
                if !self.visited[at] {
                    self.visited_count = self.visited_count + 1;
                }
                self.visited.set(at, true);
                self.guard_pos = (nx, ny);
                self.guard_dir = d;
                return true;
            }
        }
    }
}

} // verus!
