//! A warehouse robot pushing rows of boxes, and the GPS sum of the boxes it leaves behind.
use vstd::prelude::*;
use crate::text::{chars_of, lines, lines_of, rows_view};

verus! {

/// A grid location as column and row.
#[derive(Debug, PartialEq, Eq, Hash, Clone, Copy, Structural)]
pub struct Position {
    pub x: i32,
    pub y: i32,
}

/// Why a warehouse could not be read or run.
#[derive(Debug, Clone, Copy, PartialEq, Eq, Structural)]
pub enum WarehouseError {
    /// No robot, a robot on the outer wall, or a map too large to index.
    Malformed,
    /// A move that is not one of `^`, `>`, `v`, `<`.
    BadMove,
}

/// Walls and boxes as row-major masks; the outermost ring of cells is wall as well.
#[derive(Debug)]
pub struct Warehouse {
    pub robot: Position,
    pub boxes: Vec<bool>,
    pub walls: Vec<bool>,
    pub x_size: usize,
    pub y_size: usize,
}

/// Column and row change of a move character.
pub open spec fn move_delta(dir: char) -> (int, int) {
    if dir == '^' {
        (0, -1)
    } else if dir == '>' {
        (1, 0)
    } else if dir == 'v' {
        (0, 1)
    } else {
        (-1, 0)
    }
}

pub open spec fn is_move_char(c: char) -> bool {
    c == '^' || c == '>' || c == 'v' || c == '<'
}

impl Warehouse {
    pub open spec fn inside(&self, x: int, y: int) -> bool {
        0 <= x < self.x_size && 0 <= y < self.y_size
    }

    pub open spec fn index(&self, x: int, y: int) -> int {
        y * self.x_size + x
    }

    /// Outside the map, on its outer ring, or a wall.
    pub open spec fn wall_at(&self, x: int, y: int) -> bool {
        !self.inside(x, y) || x == 0 || y == 0 || x == self.x_size - 1 || y == self.y_size - 1
            || self.walls@[self.index(x, y)]
    }

    /// A box stands on `(x, y)` in the box mask `b`.
    pub open spec fn box_in(&self, b: Seq<bool>, x: int, y: int) -> bool {
        self.inside(x, y) && b[self.index(x, y)]
    }

    pub open spec fn box_at(&self, x: int, y: int) -> bool {
        self.box_in(self.boxes@, x, y)
    }

    pub open spec fn wf(&self) -> bool {
        &&& 3 <= self.x_size < 0x100_0000
        &&& 3 <= self.y_size < 0x100_0000
        &&& self.x_size * self.y_size <= usize::MAX
        &&& self.boxes@.len() == self.x_size * self.y_size
        &&& self.walls@.len() == self.x_size * self.y_size
        &&& !self.wall_at(self.robot.x as int, self.robot.y as int)
    }

    /// Steps left before a walk from `(x, y)` along `(dx, dy)` leaves the map.
    pub open spec fn room(&self, x: int, y: int, dx: int, dy: int) -> int {
        if dx > 0 {
            self.x_size - x
        } else if dx < 0 {
            x + 1
        } else if dy > 0 {
            self.y_size - y
        } else {
            y + 1
        }
    }

    /// The first cell from `(x, y)` along `(dx, dy)` that does not hold a box on open floor.
    pub open spec fn run_end(&self, b: Seq<bool>, x: int, y: int, dx: int, dy: int) -> (int, int)
        decreases self.room(x, y, dx, dy),
    {
        if self.box_in(b, x, y) && !self.wall_at(x, y) && (dx != 0 || dy != 0) && -1 <= dx <= 1 && -1 <= dy <= 1
            && (dx == 0 || dy == 0) {
            self.run_end(b, x + dx, y + dy, dx, dy)
        } else {
            (x, y)
        }
    }

    /// One move of the robot at `r` with boxes `b`: into open floor it steps; into a box it
    /// pushes the whole row of boxes along when the cell after the row is free; into a wall,
    /// or a row that ends at a wall, nothing happens.
    pub open spec fn step(&self, r: (int, int), b: Seq<bool>, dir: char) -> ((int, int), Seq<bool>) {
        let (dx, dy) = move_delta(dir);
        let n = (r.0 + dx, r.1 + dy);
        if self.wall_at(n.0, n.1) {
            (r, b)
        } else if !self.box_in(b, n.0, n.1) {
            (n, b)
        } else {
            let e = self.run_end(b, n.0, n.1, dx, dy);
            if self.wall_at(e.0, e.1) {
                (r, b)
            } else {
                (n, b.update(self.index(n.0, n.1), false).update(self.index(e.0, e.1), true))
            }
        }
    }

    /// The robot and boxes after the moves in `m`, whitespace skipped.
    pub open spec fn steps(&self, r: (int, int), b: Seq<bool>, m: Seq<char>) -> ((int, int), Seq<bool>)
        decreases m.len(),
    {
        if m.len() == 0 {
            (r, b)
        } else {
            let (r2, b2) = self.steps(r, b, m.drop_last());
            if is_move_char(m.last()) {
                self.step(r2, b2, m.last())
            } else {
                (r2, b2)
            }
        }
    }
}


proof fn lemma_index(w: int, h: int, x: int, y: int)
    requires
        0 <= x < w,
        0 <= y < h,
    ensures
        0 <= y * w + x < w * h,
{
    assert(y * w <= (h - 1) * w) by (nonlinear_arith)
        requires
            0 <= y < h,
            0 <= x < w,
    ;
    assert((h - 1) * w == w * h - w) by (nonlinear_arith);
    assert(0 <= y * w) by (nonlinear_arith)
        requires
            0 <= y,
            0 <= w,
    ;
}

impl Warehouse {
    /// Whether the position lies in the map.
    pub fn is_valid(&self, pos: &Position) -> (r: bool)
        ensures
            r == self.inside(pos.x as int, pos.y as int),
    {
        pos.x >= 0 && pos.y >= 0 && (pos.x as usize) < self.x_size && (pos.y as usize) < self.y_size
    }

    fn slot(&self, pos: &Position) -> (i: usize)
        requires
            self.wf(),
            self.inside(pos.x as int, pos.y as int),
        ensures
            i == self.index(pos.x as int, pos.y as int),
            i < self.boxes@.len(),
    {
        proof {
            lemma_index(self.x_size as int, self.y_size as int, pos.x as int, pos.y as int);
        }
        (pos.y as usize) * self.x_size + pos.x as usize
    }

    /// Whether the cell is a wall or on the outer ring.
    pub fn is_wall(&self, pos: &Position) -> (r: bool)
        requires
            self.wf(),
            self.inside(pos.x as int, pos.y as int),
        ensures
            r == self.wall_at(pos.x as int, pos.y as int),
    {
        if pos.x == 0 || pos.y == 0 || pos.x as usize == self.x_size - 1 || pos.y as usize == self.y_size - 1 {
            return true;
        }
        self.walls[self.slot(pos)]
    }

    /// Whether a box stands on the cell.
    pub fn is_box(&self, pos: &Position) -> (r: bool)
        requires
            self.wf(),
        ensures
            r == self.box_at(pos.x as int, pos.y as int),
    {
        if !self.is_valid(pos) {
            return false;
        }
        self.boxes[self.slot(pos)]
    }

    /// The neighbouring position in the direction of a move character.
    pub fn new_pos(p: &Position, dir: char) -> (r: Position)
        requires
            is_move_char(dir),
            i32::MIN < p.x < i32::MAX,
            i32::MIN < p.y < i32::MAX,
        ensures
            r.x == p.x + move_delta(dir).0,
            r.y == p.y + move_delta(dir).1,
    {
        match dir {
            '^' => Position { x: p.x, y: p.y - 1 },
            '>' => Position { x: p.x + 1, y: p.y },
            'v' => Position { x: p.x, y: p.y + 1 },
            _ => Position { x: p.x - 1, y: p.y },
        }
    }

    /// The end of the row of boxes that starts at `b`.
    fn row_end(&self, b: &Position, dir: char) -> (e: Position)
        requires
            self.wf(),
            is_move_char(dir),
            self.inside(b.x as int, b.y as int),
        ensures
            (e.x as int, e.y as int) == self.run_end(self.boxes@, b.x as int, b.y as int, move_delta(dir).0, move_delta(dir).1),
            self.inside(e.x as int, e.y as int),
    {
        let ghost (dx, dy) = move_delta(dir);
        let mut cur = *b;
        while self.is_box(&cur) && !self.is_wall(&cur)
            invariant
                self.wf(),
                is_move_char(dir),
                (dx, dy) == move_delta(dir),
                self.inside(cur.x as int, cur.y as int),
                self.run_end(self.boxes@, b.x as int, b.y as int, dx, dy) == self.run_end(self.boxes@, cur.x as int, cur.y as int, dx, dy),
            decreases self.room(cur.x as int, cur.y as int, dx, dy),
        {
            cur = Self::new_pos(&cur, dir);
        }
        cur
    }

    /// Whether the row of boxes starting at `b` can be pushed one cell along `dir`.
    pub fn can_move_box(&self, b: &Position, dir: char) -> (r: bool)
        requires
            self.wf(),
            is_move_char(dir),
            self.box_at(b.x as int, b.y as int),
            !self.wall_at(b.x as int, b.y as int),
        ensures
            ({
                let e = self.run_end(self.boxes@, b.x as int, b.y as int, move_delta(dir).0, move_delta(dir).1);
                r == !self.wall_at(e.0, e.1)
            }),
    {
        let e = self.row_end(b, dir);
        !self.is_wall(&e)
    }

    /// Pushes the row of boxes starting at `b` one cell along `dir`, if the cell after the
    /// row is free: the box on `b` leaves and one appears at the row's end.
    pub fn move_box(&mut self, b: &Position, dir: char) -> (moved: bool)
        requires
            old(self).wf(),
            is_move_char(dir),
            old(self).box_at(b.x as int, b.y as int),
            !old(self).wall_at(b.x as int, b.y as int),
        ensures
            final(self).wf(),
            final(self).robot == old(self).robot,
            final(self).walls@ == old(self).walls@,
            final(self).x_size == old(self).x_size,
            final(self).y_size == old(self).y_size,
            ({
                let e = old(self).run_end(old(self).boxes@, b.x as int, b.y as int, move_delta(dir).0, move_delta(dir).1);
                &&& moved == !old(self).wall_at(e.0, e.1)
                &&& final(self).boxes@ == if moved {
                    old(self).boxes@.update(old(self).index(b.x as int, b.y as int), false).update(old(self).index(e.0, e.1), true)
                } else {
                    old(self).boxes@
                }
            }),
    {
        let e = self.row_end(b, dir);
        if self.is_wall(&e) {
            return false;
        }
        let bi = self.slot(b);
        let ei = self.slot(&e);
        self.boxes.set(bi, false);
        self.boxes.set(ei, true);
        true
    }

    /// Moves the robot one cell along `dir`, pushing boxes as the rules allow.
    pub fn move_robot(&mut self, dir: char)
        requires
            old(self).wf(),
            is_move_char(dir),
        ensures
            final(self).wf(),
            final(self).walls@ == old(self).walls@,
            final(self).x_size == old(self).x_size,
            final(self).y_size == old(self).y_size,
            ((final(self).robot.x as int, final(self).robot.y as int), final(self).boxes@) == old(self).step(
                (old(self).robot.x as int, old(self).robot.y as int),
                old(self).boxes@,
                dir,
            ),
    {
        let next = Self::new_pos(&self.robot, dir);
        if self.is_wall(&next) {
            return;
        }
        if self.is_box(&next) && !self.move_box(&next, dir) {
            return;
        }
        self.robot = next;
    }

    /// Applies each move character in turn, skipping whitespace. Any other character is
    /// refused before anything moves.
    pub fn run_moves(&mut self, moves: &str) -> (r: Result<(), WarehouseError>)
        requires
            old(self).wf(),
        ensures
            final(self).wf(),
            final(self).walls@ == old(self).walls@,
            final(self).x_size == old(self).x_size,
            final(self).y_size == old(self).y_size,
            match r {
                Ok(()) => (forall|i: int| 0 <= i < moves@.len() ==> is_move_char(#[trigger] moves@[i]) || is_blank(moves@[i]))
                    && ((final(self).robot.x as int, final(self).robot.y as int), final(self).boxes@) == old(self).steps(
                    (old(self).robot.x as int, old(self).robot.y as int),
                    old(self).boxes@,
                    moves@,
                ),
                Err(e) => e == WarehouseError::BadMove && (exists|i: int| 0 <= i < moves@.len() && !is_move_char(#[trigger] moves@[i]) && !is_blank(moves@[i]))
                    && final(self).robot == old(self).robot && final(self).boxes@ == old(self).boxes@,
            },
    {
        let m = chars_of(moves);
        let mut i: usize = 0;
        while i < m.len()
            invariant
                self.wf(),
                self.robot == old(self).robot,
                self.boxes@ == old(self).boxes@,
                self.walls@ == old(self).walls@,
                self.x_size == old(self).x_size,
                self.y_size == old(self).y_size,
                m@ == moves@,
                i <= m@.len(),
                forall|j: int| 0 <= j < i ==> is_move_char(#[trigger] m@[j]) || is_blank(m@[j]),
            decreases m@.len() - i,
        {
            let c = m[i];
            if !(c == '^' || c == '>' || c == 'v' || c == '<' || c == ' ' || c == '\n' || c == '\r' || c == '\t') {
                return Err(WarehouseError::BadMove);
            }
            i = i + 1;
        }
        let mut k: usize = 0;
        while k < m.len()
            invariant
                self.wf(),
                m@ == moves@,
                k <= m@.len(),
                self.walls@ == old(self).walls@,
                self.x_size == old(self).x_size,
                self.y_size == old(self).y_size,
                forall|j: int| 0 <= j < m@.len() ==> is_move_char(#[trigger] m@[j]) || is_blank(m@[j]),
                ((self.robot.x as int, self.robot.y as int), self.boxes@) == old(self).steps(
                    (old(self).robot.x as int, old(self).robot.y as int),
                    old(self).boxes@,
                    m@.take(k as int),
                ),
            decreases m@.len() - k,
        {
            let c = m[k];
            assert(m@.take(k + 1).drop_last() =~= m@.take(k as int));
            let ghost before = *self;
            if c == '^' || c == '>' || c == 'v' || c == '<' {
                self.move_robot(c);
                proof {
                    lemma_same_geometry(&before, old(self));
                }
            }
            k = k + 1;
        }
        assert(m@.take(k as int) =~= m@);
        Ok(())
    }
}

/// Whitespace that separates moves.
pub open spec fn is_blank(c: char) -> bool {
    c == ' ' || c == '\n' || c == '\r' || c == '\t'
}

/// Two warehouses with the same walls and size agree on every move.
proof fn lemma_same_geometry(a: &Warehouse, b: &Warehouse)
    requires
        a.walls@ == b.walls@,
        a.x_size == b.x_size,
        a.y_size == b.y_size,
    ensures
        forall|r: (int, int), m: Seq<bool>, c: char| #[trigger] a.step(r, m, c) == b.step(r, m, c),
{
    assert forall|r: (int, int), m: Seq<bool>, c: char| #[trigger] a.step(r, m, c) == b.step(r, m, c) by {
        let (dx, dy) = move_delta(c);
        let n = (r.0 + dx, r.1 + dy);
        lemma_same_run(a, b, m, n.0, n.1, dx, dy);
    }
}

proof fn lemma_same_run(a: &Warehouse, b: &Warehouse, m: Seq<bool>, x: int, y: int, dx: int, dy: int)
    requires
        a.walls@ == b.walls@,
        a.x_size == b.x_size,
        a.y_size == b.y_size,
    ensures
        a.run_end(m, x, y, dx, dy) == b.run_end(m, x, y, dx, dy),
    decreases a.room(x, y, dx, dy),
{
    if a.box_in(m, x, y) && !a.wall_at(x, y) && (dx != 0 || dy != 0) && -1 <= dx <= 1 && -1 <= dy <= 1 && (dx == 0 || dy == 0) {
        lemma_same_run(a, b, m, x + dx, y + dy, dx, dy);
    }
}


/// Length of the longest of the first `n` rows.
pub open spec fn max_len(rows: Seq<Seq<char>>, n: int) -> nat
    decreases n,
{
    if n <= 0 {
        0
    } else {
        let m = max_len(rows, n - 1);
        if rows[n - 1].len() > m {
            rows[n - 1].len()
        } else {
            m
        }
    }
}

/// The character at `(x, y)`; short rows read as floor past their end.
pub open spec fn cell(rows: Seq<Seq<char>>, x: int, y: int) -> char {
    if 0 <= y < rows.len() && 0 <= x < rows[y].len() {
        rows[y][x]
    } else {
        '.'
    }
}

/// `(x2, y2)` comes after `(x, y)` in reading order.
pub open spec fn read_after(x2: int, y2: int, x: int, y: int) -> bool {
    y2 > y || (y2 == y && x2 > x)
}

/// `(x, y)` holds the last `@` of a map `w` columns wide.
pub open spec fn last_robot(rows: Seq<Seq<char>>, w: int, x: int, y: int) -> bool {
    &&& 0 <= y < rows.len()
    &&& 0 <= x < w
    &&& cell(rows, x, y) == '@'
    &&& forall|x2: int, y2: int|
        0 <= y2 < rows.len() && 0 <= x2 < w && read_after(x2, y2, x, y) ==> #[trigger] cell(rows, x2, y2) != '@'
}

/// The rows can be loaded: sizes between three and 2^24, and a last `@` off the outer ring.
pub open spec fn loadable(rows: Seq<Seq<char>>) -> bool {
    let w = max_len(rows, rows.len() as int) as int;
    let h = rows.len() as int;
    &&& 3 <= w < 0x100_0000
    &&& 3 <= h < 0x100_0000
    &&& w * h <= usize::MAX
    &&& exists|x: int, y: int| #[trigger] last_robot(rows, w, x, y) && 0 < x < w - 1 && 0 < y < h - 1
}

/// Only one cell holds the last `@`.
proof fn lemma_last_robot_unique(rows: Seq<Seq<char>>, w: int, x1: int, y1: int, x2: int, y2: int)
    requires
        last_robot(rows, w, x1, y1),
        last_robot(rows, w, x2, y2),
    ensures
        x1 == x2 && y1 == y2,
{
    if read_after(x2, y2, x1, y1) {
        assert(cell(rows, x2, y2) != '@');
    } else if read_after(x1, y1, x2, y2) {
        assert(cell(rows, x1, y1) != '@');
    }
}

/// The warehouse the rows describe: `#` walls, `O` boxes, `@` the robot.
pub open spec fn describes(m: &Warehouse, rows: Seq<Seq<char>>) -> bool {
    &&& m.x_size == max_len(rows, rows.len() as int)
    &&& m.y_size == rows.len()
    &&& forall|x: int, y: int|
        #![trigger m.index(x, y)]
        m.inside(x, y) ==> m.walls@[m.index(x, y)] == (cell(rows, x, y) == '#') && m.boxes@[m.index(x, y)] == (cell(
            rows,
            x,
            y,
        ) == 'O')
    &&& last_robot(rows, m.x_size as int, m.robot.x as int, m.robot.y as int)
}

/// Sum over the first `n` cells of the row-major mask of `x + 100 y` for each box.
pub open spec fn gps_of(b: Seq<bool>, w: int, n: int) -> int
    decreases n,
{
    if n <= 0 {
        0
    } else {
        gps_of(b, w, n - 1) + if b[n - 1] {
            (n - 1) % w + 100 * ((n - 1) / w)
        } else {
            0
        }
    }
}

proof fn lemma_gps_grows(b: Seq<bool>, w: int, i: int, n: int)
    requires
        0 <= i <= n,
        w > 0,
    ensures
        0 <= gps_of(b, w, i) <= gps_of(b, w, n),
    decreases n,
{
    if n > 0 {
        if i < n {
            lemma_gps_grows(b, w, i, n - 1);
        } else {
            lemma_gps_grows(b, w, n - 1, n - 1);
        }
        vstd::arithmetic::div_mod::lemma_div_pos_is_pos(n - 1, w);
        vstd::arithmetic::div_mod::lemma_mod_pos_bound(n - 1, w);
    }
}

impl Warehouse {
    /// Sum of the GPS coordinates `x + 100 y` of all boxes.
    pub fn gps_sum(&self) -> (r: i32)
        requires
            self.wf(),
            gps_of(self.boxes@, self.x_size as int, self.boxes@.len() as int) <= i32::MAX,
        ensures
            r == gps_of(self.boxes@, self.x_size as int, self.boxes@.len() as int),
    {
        let n = self.boxes.len();
        let w = self.x_size;
        let mut sum: i32 = 0;
        let mut k: usize = 0;
        let mut x: usize = 0;
        let mut y: usize = 0;
        while k < n
            invariant
                self.wf(),
                n == self.boxes@.len(),
                w == self.x_size,
                k <= n,
                x < w,
                k == y * w + x,
                gps_of(self.boxes@, w as int, n as int) <= i32::MAX,
                sum == gps_of(self.boxes@, w as int, k as int),
            decreases n - k,
        {
            proof {
                lemma_gps_grows(self.boxes@, w as int, k + 1, n as int);
                vstd::arithmetic::div_mod::lemma_fundamental_div_mod_converse(k as int, w as int, y as int, x as int);
            }
            if self.boxes[k] {
                assert(gps_of(self.boxes@, w as int, k + 1) == sum + x + 100 * y);
                proof {
                    lemma_gps_grows(self.boxes@, w as int, k as int, n as int);
                }
                assert(0 <= 100 * y <= i32::MAX);
                sum = sum + (x as i32) + 100 * (y as i32);
            }
            k = k + 1;
            proof {
                assert((y + 1) * w == y * w + w) by (nonlinear_arith);
            }
            if x + 1 == w {
                x = 0;
                y = y + 1;
            } else {
                x = x + 1;
            }
        }
        sum
    }
}


impl Warehouse {
    /// Reads a warehouse map: `#` walls, `O` boxes, `@` the robot (the last one if several),
    /// anything else floor. Blank lines are skipped; short rows read as floor past their end.
    pub fn from_str(input: &str) -> (r: Result<Warehouse, WarehouseError>)
        ensures
            match r {
                Ok(m) => loadable(lines_of(input@)) && m.wf() && describes(&m, lines_of(input@)),
                Err(e) => e == WarehouseError::Malformed && !loadable(lines_of(input@)),
            },
    {
        let rows = lines(input);
        let ghost g = rows_view(rows@);
        let h = rows.len();
        let mut w: usize = 0;
        let mut i: usize = 0;
        while i < h
            invariant
                g == rows_view(rows@),
                h == g.len(),
                i <= h,
                w == max_len(g, i as int),
            decreases h - i,
        {
            assert(g[i as int] == rows@[i as int]@);
            if rows[i].len() > w {
                w = rows[i].len();
            }
            i = i + 1;
        }
        if w < 3 || w >= 0x100_0000 || h < 3 || h >= 0x100_0000 {
            return Err(WarehouseError::Malformed);
        }
        let n = match w.checked_mul(h) {
            Some(n) => n,
            None => {
                return Err(WarehouseError::Malformed);
            },
        };
        let mut walls: Vec<bool> = Vec::new();
        let mut boxes: Vec<bool> = Vec::new();
        let mut robot: Option<Position> = None;
        let mut y: usize = 0;
        while y < h
            invariant
                g == rows_view(rows@),
                h == g.len(),
                w == max_len(g, h as int),
                3 <= w < 0x100_0000,
                3 <= h < 0x100_0000,
                n == w * h,
                y <= h,
                walls@.len() == y * w,
                boxes@.len() == y * w,
                forall|j: int| 0 <= j < walls@.len() ==> #[trigger] walls@[j] == (cell(g, j % w as int, j / w as int) == '#'),
                forall|j: int| 0 <= j < boxes@.len() ==> #[trigger] boxes@[j] == (cell(g, j % w as int, j / w as int) == 'O'),
                match robot {
                    Some(p) => 0 <= p.y < y && 0 <= p.x < w && cell(g, p.x as int, p.y as int) == '@'
                        && forall|x2: int, y2: int| 0 <= y2 < y && 0 <= x2 < w && read_after(x2, y2, p.x as int, p.y as int) ==> #[trigger] cell(g, x2, y2) != '@',
                    None => forall|x2: int, y2: int| 0 <= y2 < y && 0 <= x2 < w ==> #[trigger] cell(g, x2, y2) != '@',
                },
            decreases h - y,
        {
            let row = &rows[y];
            assert(g[y as int] == row@);
            let mut x: usize = 0;
            while x < w
                invariant
                    g == rows_view(rows@),
                    h == g.len(),
                    3 <= w < 0x100_0000,
                    3 <= h < 0x100_0000,
                    y < h,
                    g[y as int] == row@,
                    x <= w,
                    walls@.len() == y * w + x,
                    boxes@.len() == y * w + x,
                    forall|j: int| 0 <= j < walls@.len() ==> #[trigger] walls@[j] == (cell(g, j % w as int, j / w as int) == '#'),
                    forall|j: int| 0 <= j < boxes@.len() ==> #[trigger] boxes@[j] == (cell(g, j % w as int, j / w as int) == 'O'),
                    match robot {
                        Some(p) => 0 <= p.y <= y && 0 <= p.x < w && (p.y < y || p.x < x) && cell(g, p.x as int, p.y as int) == '@'
                            && forall|x2: int, y2: int| 0 <= y2 <= y && 0 <= x2 < w && (y2 < y || x2 < x) && read_after(x2, y2, p.x as int, p.y as int) ==> #[trigger] cell(g, x2, y2) != '@',
                        None => forall|x2: int, y2: int| 0 <= y2 <= y && 0 <= x2 < w && (y2 < y || x2 < x) ==> #[trigger] cell(g, x2, y2) != '@',
                    },
                decreases w - x,
            {
                let c = if x < row.len() {
                    row[x]
                } else {
                    '.'
                };
                assert(c == cell(g, x as int, y as int));
                proof {
                    vstd::arithmetic::div_mod::lemma_fundamental_div_mod_converse(y * w + x, w as int, y as int, x as int);
                }
                walls.push(c == '#');
                boxes.push(c == 'O');
                if c == '@' {
                    robot = Some(Position { x: x as i32, y: y as i32 });
                }
                x = x + 1;
            }
            proof {
                assert((y + 1) * w == y * w + w) by (nonlinear_arith);
            }
            y = y + 1;
        }
        proof {
            assert(walls@.len() == w * h) by (nonlinear_arith)
                requires
                    walls@.len() == y * w,
                    y == h,
            ;
        }
        let p = match robot {
            Some(p) => p,
            None => {
                return Err(WarehouseError::Malformed);
            },
        };
        assert(last_robot(g, w as int, p.x as int, p.y as int));
        if p.x == 0 || p.y == 0 || p.x as usize == w - 1 || p.y as usize == h - 1 {
            proof {
                if loadable(g) {
                    let (x, y) = choose|x: int, y: int| #[trigger] last_robot(g, w as int, x, y) && 0 < x < w - 1 && 0 < y < h - 1;
                    lemma_last_robot_unique(g, w as int, x, y, p.x as int, p.y as int);
                }
            }
            return Err(WarehouseError::Malformed);
        }
        let m = Warehouse { robot: p, boxes, walls, x_size: w, y_size: h };
        proof {
            assert forall|x: int, y: int|
                #![trigger m.index(x, y)]
                m.inside(x, y) implies m.walls@[m.index(x, y)] == (cell(g, x, y) == '#') && m.boxes@[m.index(x, y)] == (cell(g, x, y) == 'O') by {
                lemma_index(w as int, h as int, x, y);
                vstd::arithmetic::div_mod::lemma_fundamental_div_mod_converse(m.index(x, y), w as int, y, x);
            }
            lemma_index(w as int, h as int, p.x as int, p.y as int);
            vstd::arithmetic::div_mod::lemma_fundamental_div_mod_converse(m.index(p.x as int, p.y as int), w as int, p.y as int, p.x as int);
            assert(m.walls@[m.index(p.x as int, p.y as int)] == (cell(g, p.x as int, p.y as int) == '#'));
        }
        Ok(m)
    }
}

} // verus!
