//! Robots patrolling a bathroom floor that wraps around at its edges.
use vstd::prelude::*;
use crate::text::{all_i32, fields_of, i32_fields, ints_view, lines, lines_of, parse_i32_fields, rows_view};

verus! {

/// A robot's position and velocity per second.
#[derive(Debug)]
pub struct Robot {
    pub x_pos: i32,
    pub y_pos: i32,
    pub x_velocity: i32,
    pub y_velocity: i32,
}

/// The floor and the robots on it.
#[derive(Debug)]
pub struct Bathroom {
    pub x_size: usize,
    pub y_size: usize,
    pub robots: Vec<Robot>,
}

/// Whether robot `r` stands in quadrant `q`, leaving out the middle row and column.
pub open spec fn in_quadrant(r: Robot, q: int, xs: int, ys: int) -> bool {
    let left = 0 <= r.x_pos <= xs / 2 - 1;
    let right = xs / 2 + 1 <= r.x_pos <= xs - 1;
    let top = 0 <= r.y_pos <= ys / 2 - 1;
    let bottom = ys / 2 + 1 <= r.y_pos <= ys - 1;
    if q == 0 {
        left && top
    } else if q == 1 {
        right && top
    } else if q == 2 {
        right && bottom
    } else {
        left && bottom
    }
}

/// How many of the first `n` robots stand in quadrant `q`.
pub open spec fn quadrant_count(rs: Seq<Robot>, q: int, xs: int, ys: int, n: int) -> nat
    decreases n,
{
    if n <= 0 {
        0
    } else {
        quadrant_count(rs, q, xs, ys, n - 1) + if in_quadrant(rs[n - 1], q, xs, ys) {
            1nat
        } else {
            0nat
        }
    }
}

/// How many of the first `n` robots stand on `(x, y)`.
pub open spec fn count_at(rs: Seq<Robot>, x: int, y: int, n: int) -> nat
    decreases n,
{
    if n <= 0 {
        0
    } else {
        count_at(rs, x, y, n - 1) + if rs[n - 1].x_pos == x && rs[n - 1].y_pos == y {
            1nat
        } else {
            0nat
        }
    }
}

proof fn lemma_wrap(p: int, v: int, size: int)
    requires
        0 <= p < size,
        -size < v < size,
    ensures
        (p + v) % size == if p + v >= size {
            p + v - size
        } else if p + v < 0 {
            p + v + size
        } else {
            p + v
        },
{
    if p + v >= size {
        vstd::arithmetic::div_mod::lemma_fundamental_div_mod_converse(p + v, size, 1, p + v - size);
    } else if p + v < 0 {
        vstd::arithmetic::div_mod::lemma_fundamental_div_mod_converse(p + v, size, -1, p + v + size);
    } else {
        vstd::arithmetic::div_mod::lemma_fundamental_div_mod_converse(p + v, size, 0, p + v);
    }
}

proof fn lemma_advance(p: int, n: int, v: int, size: int)
    requires
        size > 0,
    ensures
        ((p + n * v) % size + v) % size == (p + (n + 1) * v) % size,
{
    vstd::arithmetic::div_mod::lemma_add_mod_noop_right((p + n * v) % size, v, size);
    vstd::arithmetic::div_mod::lemma_add_mod_noop(p + n * v, v, size);
    vstd::arithmetic::div_mod::lemma_add_mod_noop_right(p + n * v, v, size);
    assert(p + n * v + v == p + (n + 1) * v) by (nonlinear_arith);
}

impl Bathroom {
    /// Sizes that fit `i32`; every robot on the floor, slower than one floor width per second.
    pub open spec fn wf(&self) -> bool {
        &&& 0 < self.x_size < 0x4000_0000
        &&& 0 < self.y_size < 0x4000_0000
        &&& forall|i: int| 0 <= i < self.robots@.len() ==> #[trigger] self.robot_ok(self.robots@[i])
    }

    pub open spec fn robot_ok(&self, r: Robot) -> bool {
        &&& 0 <= r.x_pos < self.x_size
        &&& 0 <= r.y_pos < self.y_size
        &&& -(self.x_size as int) < r.x_velocity < self.x_size
        &&& -(self.y_size as int) < r.y_velocity < self.y_size
    }

    /// Moves every robot by its velocity, wrapping around the edges.
    pub fn run_one_second(&mut self)
        requires
            old(self).wf(),
        ensures
            final(self).wf(),
            final(self).x_size == old(self).x_size,
            final(self).y_size == old(self).y_size,
            final(self).robots@.len() == old(self).robots@.len(),
            forall|i: int|
                0 <= i < old(self).robots@.len() ==> {
                    let a = #[trigger] old(self).robots@[i];
                    let b = final(self).robots@[i];
                    &&& b.x_pos == (a.x_pos + a.x_velocity) % (old(self).x_size as int)
                    &&& b.y_pos == (a.y_pos + a.y_velocity) % (old(self).y_size as int)
                    &&& b.x_velocity == a.x_velocity
                    &&& b.y_velocity == a.y_velocity
                },
    {
        let xs = self.x_size as i32;
        let ys = self.y_size as i32;
        let n = self.robots.len();
        let mut i: usize = 0;
        while i < n
            invariant
                self.wf(),
                self.x_size == old(self).x_size,
                self.y_size == old(self).y_size,
                xs == self.x_size,
                ys == self.y_size,
                n == self.robots@.len(),
                n == old(self).robots@.len(),
                i <= n,
                forall|j: int| i <= j < n ==> self.robots@[j] == old(self).robots@[j],
                forall|j: int|
                    0 <= j < i ==> {
                        let a = #[trigger] old(self).robots@[j];
                        let b = self.robots@[j];
                        &&& b.x_pos == (a.x_pos + a.x_velocity) % (old(self).x_size as int)
                        &&& b.y_pos == (a.y_pos + a.y_velocity) % (old(self).y_size as int)
                        &&& b.x_velocity == a.x_velocity
                        &&& b.y_velocity == a.y_velocity
                    },
            decreases n - i,
        {
            let r = &self.robots[i];
            assert(self.robot_ok(self.robots@[i as int]));
            let mut nx = r.x_pos + r.x_velocity;
            let mut ny = r.y_pos + r.y_velocity;
            proof {
                lemma_wrap(r.x_pos as int, r.x_velocity as int, xs as int);
                lemma_wrap(r.y_pos as int, r.y_velocity as int, ys as int);
            }
            if nx >= xs {
                nx = nx - xs;
            } else if nx < 0 {
                nx = nx + xs;
            }
            if ny >= ys {
                ny = ny - ys;
            } else if ny < 0 {
                ny = ny + ys;
            }
            let moved = Robot { x_pos: nx, y_pos: ny, x_velocity: r.x_velocity, y_velocity: r.y_velocity };
            let ghost before = self.robots@;
            let ghost prev = *self;
            self.robots.set(i, moved);
            proof {
                assert forall|j: int| 0 <= j < self.robots@.len() implies #[trigger] self.robot_ok(self.robots@[j]) by {
                    if j != i {
                        assert(self.robots@[j] == before[j]);
                        assert(prev.robot_ok(prev.robots@[j]));
                    }
                }
            }
            i = i + 1;
        }
    }

    /// Runs `n` seconds: each robot ends at its start plus `n` times its velocity, wrapped.
    pub fn run_n_seconds(&mut self, n: usize)
        requires
            old(self).wf(),
        ensures
            final(self).wf(),
            final(self).x_size == old(self).x_size,
            final(self).y_size == old(self).y_size,
            final(self).robots@.len() == old(self).robots@.len(),
            forall|i: int|
                0 <= i < old(self).robots@.len() ==> {
                    let a = #[trigger] old(self).robots@[i];
                    let b = final(self).robots@[i];
                    &&& b.x_pos == (a.x_pos + n * a.x_velocity) % (old(self).x_size as int)
                    &&& b.y_pos == (a.y_pos + n * a.y_velocity) % (old(self).y_size as int)
                    &&& b.x_velocity == a.x_velocity
                    &&& b.y_velocity == a.y_velocity
                },
    {
        let mut k: usize = 0;
        proof {
            assert forall|i: int| 0 <= i < old(self).robots@.len() implies {
                let a = #[trigger] old(self).robots@[i];
                &&& a.x_pos == (a.x_pos + 0 * a.x_velocity) % (old(self).x_size as int)
                &&& a.y_pos == (a.y_pos + 0 * a.y_velocity) % (old(self).y_size as int)
            } by {
                let a = old(self).robots@[i];
                assert(old(self).robot_ok(a));
                vstd::arithmetic::div_mod::lemma_small_mod(a.x_pos as nat, old(self).x_size as nat);
                vstd::arithmetic::div_mod::lemma_small_mod(a.y_pos as nat, old(self).y_size as nat);
            }
        }
        while k < n
            invariant
                self.wf(),
                self.x_size == old(self).x_size,
                self.y_size == old(self).y_size,
                self.robots@.len() == old(self).robots@.len(),
                k <= n,
                forall|i: int|
                    0 <= i < old(self).robots@.len() ==> {
                        let a = #[trigger] old(self).robots@[i];
                        let b = self.robots@[i];
                        &&& b.x_pos == (a.x_pos + k * a.x_velocity) % (old(self).x_size as int)
                        &&& b.y_pos == (a.y_pos + k * a.y_velocity) % (old(self).y_size as int)
                        &&& b.x_velocity == a.x_velocity
                        &&& b.y_velocity == a.y_velocity
                    },
            decreases n - k,
        {
            let ghost before = self.robots@;
            self.run_one_second();
            proof {
                assert forall|i: int| 0 <= i < old(self).robots@.len() implies {
                    let a = #[trigger] old(self).robots@[i];
                    let b = self.robots@[i];
                    &&& b.x_pos == (a.x_pos + (k + 1) * a.x_velocity) % (old(self).x_size as int)
                    &&& b.y_pos == (a.y_pos + (k + 1) * a.y_velocity) % (old(self).y_size as int)
                } by {
                    let a = old(self).robots@[i];
                    let m = before[i];
                    assert(m == before[i]);
                    lemma_advance(a.x_pos as int, k as int, a.x_velocity as int, self.x_size as int);
                    lemma_advance(a.y_pos as int, k as int, a.y_velocity as int, self.y_size as int);
                }
            }
            k = k + 1;
        }
    }

    /// How many robots stand in quadrant `quadrant` (numbered clockwise from the top left).
    pub fn robots_in_quadrant(&self, quadrant: usize) -> (r: usize)
        requires
            self.wf(),
            quadrant < 4,
        ensures
            r == quadrant_count(self.robots@, quadrant as int, self.x_size as int, self.y_size as int, self.robots@.len() as int),
    {
        let xs = self.x_size as i32;
        let ys = self.y_size as i32;
        let mut count: usize = 0;
        let mut i: usize = 0;
        while i < self.robots.len()
            invariant
                self.wf(),
                quadrant < 4,
                xs == self.x_size,
                ys == self.y_size,
                i <= self.robots@.len(),
                count <= i,
                count == quadrant_count(self.robots@, quadrant as int, xs as int, ys as int, i as int),
            decreases self.robots@.len() - i,
        {
            let r = &self.robots[i];
            let left = 0 <= r.x_pos && r.x_pos <= xs / 2 - 1;
            let right = xs / 2 + 1 <= r.x_pos && r.x_pos <= xs - 1;
            let top = 0 <= r.y_pos && r.y_pos <= ys / 2 - 1;
            let bottom = ys / 2 + 1 <= r.y_pos && r.y_pos <= ys - 1;
            let inside = if quadrant == 0 {
                left && top
            } else if quadrant == 1 {
                right && top
            } else if quadrant == 2 {
                right && bottom
            } else {
                left && bottom
            };
            if inside {
                count = count + 1;
            }
            i = i + 1;
        }
        count
    }

    /// How many robots stand on `(x, y)`.
    pub fn robots_at(&self, x: usize, y: usize) -> (r: usize)
        ensures
            r == count_at(self.robots@, x as int, y as int, self.robots@.len() as int),
    {
        let mut count: usize = 0;
        let mut i: usize = 0;
        while i < self.robots.len()
            invariant
                i <= self.robots@.len(),
                count <= i,
                count == count_at(self.robots@, x as int, y as int, i as int),
            decreases self.robots@.len() - i,
        {
            let r = &self.robots[i];
            if r.x_pos >= 0 && r.y_pos >= 0 && r.x_pos as usize == x && r.y_pos as usize == y {
                count = count + 1;
            }
            i = i + 1;
        }
        count
    }

    /// Whether no floor cell holds two robots.
    pub fn no_overlaps(&self) -> (r: bool)
        ensures
            r == forall|x: int, y: int|
                0 <= x < self.x_size && 0 <= y < self.y_size ==> #[trigger] count_at(
                    self.robots@,
                    x,
                    y,
                    self.robots@.len() as int,
                ) <= 1,
    {
        let mut y: usize = 0;
        while y < self.y_size
            invariant
                y <= self.y_size,
                forall|x2: int, y2: int|
                    0 <= x2 < self.x_size && 0 <= y2 < y ==> #[trigger] count_at(self.robots@, x2, y2, self.robots@.len() as int) <= 1,
            decreases self.y_size - y,
        {
            let mut x: usize = 0;
            while x < self.x_size
                invariant
                    y < self.y_size,
                    x <= self.x_size,
                    forall|x2: int, y2: int|
                        ((0 <= x2 < self.x_size && 0 <= y2 < y) || (y2 == y && 0 <= x2 < x)) ==> #[trigger] count_at(self.robots@, x2, y2, self.robots@.len() as int) <= 1,
                decreases self.x_size - x,
            {
                if self.robots_at(x, y) > 1 {
                    return false;
                }
                x = x + 1;
            }
            y = y + 1;
        }
        true
    }
}


/// Separators in a robot line such as `p=0,4 v=3,-3`.
pub open spec fn robot_seps() -> Seq<char> {
    seq!['p', '=', ',', ' ', 'v']
}

/// A line holds at least four fields, all `i32`s.
pub open spec fn robot_line(line: Seq<char>) -> bool {
    all_i32(line, robot_seps()) && fields_of(line, robot_seps()).len() >= 4
}

/// The robot a line describes: position, then velocity.
pub open spec fn robot_of(r: Robot, line: Seq<char>) -> bool {
    let v = i32_fields(line, robot_seps());
    r.x_pos == v[0] && r.y_pos == v[1] && r.x_velocity == v[2] && r.y_velocity == v[3]
}

/// Reads one robot per non-blank line; `None` unless every line holds at least four
/// `i32` fields.
pub fn parse_robots(text: &str) -> (r: Option<Vec<Robot>>)
    ensures
        match r {
            Some(rs) => rs@.len() == lines_of(text@).len() && forall|k: int|
                0 <= k < rs@.len() ==> robot_line(lines_of(text@)[k]) && robot_of(#[trigger] rs@[k], lines_of(text@)[k]),
            None => exists|k: int| 0 <= k < lines_of(text@).len() && !robot_line(#[trigger] lines_of(text@)[k]),
        },
{
    let rows = lines(text);
    let seps: Vec<char> = vec!['p', '=', ',', ' ', 'v'];
    assert(seps@ =~= robot_seps());
    let mut out: Vec<Robot> = Vec::new();
    let mut k: usize = 0;
    while k < rows.len()
        invariant
            rows_view(rows@) == lines_of(text@),
            seps@ == robot_seps(),
            k <= rows@.len(),
            out@.len() == k,
            forall|j: int| 0 <= j < k ==> #[trigger] robot_line(lines_of(text@)[j]),
            forall|j: int| 0 <= j < k ==> robot_of(#[trigger] out@[j], lines_of(text@)[j]),
        decreases rows@.len() - k,
    {
        assert(lines_of(text@)[k as int] == rows@[k as int]@);
        match parse_i32_fields(&rows[k], seps.as_slice()) {
            Some(v) => {
                assert(ints_view(v@).len() == v@.len());
                if v.len() < 4 {
                    return None;
                }
                assert(ints_view(v@)[0] == v@[0] as int && ints_view(v@)[1] == v@[1] as int);
                assert(ints_view(v@)[2] == v@[2] as int && ints_view(v@)[3] == v@[3] as int);
                assert(robot_line(lines_of(text@)[k as int]));
                let ghost before = out@;
                out.push(Robot { x_pos: v[0], y_pos: v[1], x_velocity: v[2], y_velocity: v[3] });
                assert forall|j: int| 0 <= j < k + 1 implies robot_of(#[trigger] out@[j], lines_of(text@)[j]) by {
                    if j < k {
                        assert(out@[j] == before[j]);
                    }
                }
            },
            None => {
                return None;
            },
        }
        k = k + 1;
    }
    assert(rows_view(rows@).len() == rows@.len());
    assert forall|j: int| 0 <= j < out@.len() implies robot_line(lines_of(text@)[j]) && robot_of(#[trigger] out@[j], lines_of(text@)[j]) by {
        assert(robot_line(lines_of(text@)[j]));
    }
    Some(out)
}

} // verus!
