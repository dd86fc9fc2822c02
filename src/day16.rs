//! Cheapest routes through a maze where each step costs one point and each
//! quarter turn costs a thousand, and the cells that lie on any cheapest route.
use vstd::prelude::*;
use crate::text::{lines, lines_of, rows_view};

verus! {

/// Cost of one step forward.
pub const STEP_COST: u64 = 1;

/// Cost of one quarter turn.
pub const TURN_COST: u64 = 1000;

/// Ledger value of a state that no walk has reached.
pub const UNREACHED: u64 = 18446744073709551615;

/// A facing.
#[derive(Clone, Copy, Debug, PartialEq, Eq, Structural)]
pub enum Direction {
    North,
    East,
    South,
    West,
}

/// Position of a facing in clockwise order, starting at north.
pub open spec fn dir_index(d: Direction) -> int {
    match d {
        Direction::North => 0,
        Direction::East => 1,
        Direction::South => 2,
        Direction::West => 3,
    }
}

/// Quarter turns between two facings: none, one, or two for a reversal.
pub open spec fn turns(a: Direction, b: Direction) -> nat {
    if a == b {
        0
    } else if dir_index(a) - dir_index(b) == 2 || dir_index(b) - dir_index(a) == 2 {
        2
    } else {
        1
    }
}

/// Cost of changing facing from `a` to `b`.
pub open spec fn turn_cost_of(a: Direction, b: Direction) -> nat {
    (TURN_COST * turns(a, b)) as nat
}

/// Cost of a step taken facing `b` by a walker that faced `a`.
pub open spec fn step_cost_of(a: Direction, b: Direction) -> nat {
    (STEP_COST + turn_cost_of(a, b)) as nat
}

/// Row change of one step facing `d` (north is up).
pub open spec fn row_delta(d: Direction) -> int {
    match d {
        Direction::North => -1,
        Direction::South => 1,
        _ => 0,
    }
}

/// Column change of one step facing `d` (east is right).
pub open spec fn col_delta(d: Direction) -> int {
    match d {
        Direction::East => 1,
        Direction::West => -1,
        _ => 0,
    }
}

impl Direction {
    /// A number for each facing, one to four clockwise from north.
    pub fn value(&self) -> (r: u8)
        ensures
            r == dir_index(*self) + 1,
    {
        match self {
            Direction::North => 1,
            Direction::East => 2,
            Direction::South => 3,
            Direction::West => 4,
        }
    }

    /// Quarter turns needed to face `other`.
    pub fn turns_to(&self, other: &Direction) -> (r: usize)
        ensures
            r == turns(*self, *other),
    {
        let a = self.value();
        let b = other.value();
        let difference: u8 = if a >= b { a - b } else { b - a };
        if difference == 2 {
            return 2;
        }
        (difference % 2) as usize
    }
}

/// Cost of turning from `from` to `to`: nothing, a thousand per quarter turn.
pub fn turn_cost(from: Direction, to: Direction) -> (r: u64)
    ensures
        r == turn_cost_of(from, to),
{
    TURN_COST * (from.turns_to(&to) as u64)
}

/// Cost of a step facing `to` after facing `from`.
pub fn step_cost(from: Direction, to: Direction) -> (r: u64)
    ensures
        r == step_cost_of(from, to),
{
    STEP_COST + turn_cost(from, to)
}

/// A grid location.
#[derive(Clone, Copy, Debug, PartialEq, Eq, Structural)]
pub struct Cell {
    pub row: usize,
    pub col: usize,
}

/// Why no answer could be given.
#[derive(Clone, Copy, Debug, PartialEq, Eq, Structural)]
pub enum MazeError {
    /// Rows of unequal length, no start or no end marker, or a grid too large to index.
    MalformedGrid,
    /// No route leads from the start to the end.
    NoPath,
}

/// A walker's state in the model: row, column and facing.
pub type State = (int, int, Direction);

/// Cost of a walk: the sum of its steps' costs.
pub open spec fn walk_cost(p: Seq<State>) -> nat
    decreases p.len(),
{
    if p.len() < 2 {
        0
    } else {
        step_cost_of(p[0].2, p[1].2) + walk_cost(p.drop_first())
    }
}

/// How many entries of `s` are set.
pub open spec fn count_marked(s: Seq<bool>) -> nat
    decreases s.len(),
{
    if s.len() == 0 {
        0
    } else {
        count_marked(s.drop_last()) + if s.last() {
            1nat
        } else {
            0nat
        }
    }
}

/// A rectangular maze: a wall mask in row-major order, a start and an end.
#[derive(Debug)]
pub struct Maze {
    pub width: usize,
    pub height: usize,
    pub walls: Vec<bool>,
    pub start: Cell,
    pub end: Cell,
}

impl Maze {
    /// Number of ledger states: four facings for each cell.
    pub open spec fn num_states(&self) -> int {
        self.width * self.height * 4
    }

    pub open spec fn in_bounds(&self, r: int, c: int) -> bool {
        0 <= r < self.height && 0 <= c < self.width
    }

    pub open spec fn cell_index(&self, r: int, c: int) -> int {
        r * self.width + c
    }

    pub open spec fn state_index(&self, r: int, c: int, d: Direction) -> int {
        self.cell_index(r, c) * 4 + dir_index(d)
    }

    /// The cell is inside the grid and not a wall.
    pub open spec fn open_cell(&self, r: int, c: int) -> bool {
        self.in_bounds(r, c) && !self.walls@[self.cell_index(r, c)]
    }

    pub open spec fn wf(&self) -> bool {
        &&& self.width > 0
        &&& self.height > 0
        &&& self.walls@.len() == self.width * self.height
        &&& self.num_states() <= usize::MAX
        &&& self.open_cell(self.start.row as int, self.start.col as int)
        &&& self.open_cell(self.end.row as int, self.end.col as int)
        &&& self.start != self.end
    }

    /// One step from `a` to `b`: `b` faces the way it moved and stands on an open cell.
    pub open spec fn is_move(&self, a: State, b: State) -> bool {
        &&& self.open_cell(b.0, b.1)
        &&& b.0 == a.0 + row_delta(b.2)
        &&& b.1 == a.1 + col_delta(b.2)
    }

    /// The `i`-th state of `p` moves to the next one.
    pub open spec fn step_at(&self, p: Seq<State>, i: int) -> bool {
        self.is_move(p[i], p[i + 1])
    }

    /// A walk: a non-empty sequence of states on open cells joined by moves.
    pub open spec fn is_walk(&self, p: Seq<State>) -> bool {
        &&& p.len() >= 1
        &&& self.open_cell(p[0].0, p[0].1)
        &&& forall|i: int| 0 <= i < p.len() - 1 ==> #[trigger] self.step_at(p, i)
    }

    /// The walker starts on the start cell facing east.
    pub open spec fn start_state(&self) -> State {
        (self.start.row as int, self.start.col as int, Direction::East)
    }

    pub open spec fn at_end(&self, s: State) -> bool {
        s.0 == self.end.row && s.1 == self.end.col
    }

    /// A route: a walk from the start state to the end cell, in any facing.
    pub open spec fn is_route(&self, p: Seq<State>) -> bool {
        &&& self.is_walk(p)
        &&& p[0] == self.start_state()
        &&& self.at_end(p.last())
    }

    /// `k` is the least cost of a route.
    pub open spec fn is_min_cost(&self, k: nat) -> bool {
        &&& exists|p: Seq<State>| #[trigger] self.is_route(p) && walk_cost(p) == k
        &&& forall|p: Seq<State>| #[trigger] self.is_route(p) ==> k <= walk_cost(p)
    }

    /// Some route of least cost passes through the cell.
    pub open spec fn on_optimal_route(&self, r: int, c: int) -> bool {
        exists|p: Seq<State>, i: int|
            #![trigger self.is_route(p), p[i]]
            self.is_route(p) && self.is_min_cost(walk_cost(p)) && 0 <= i < p.len() && p[i].0 == r
                && p[i].1 == c
    }

    /// For each cell in row-major order, whether it lies on a cheapest route.
    pub open spec fn optimal_mask(&self) -> Seq<bool> {
        Seq::new(
            (self.width * self.height) as nat,
            |i: int| self.on_optimal_route(i / self.width as int, i % self.width as int),
        )
    }
}

/// All rows have the length of the first, which is not zero.
pub open spec fn rectangular(rows: Seq<Seq<char>>) -> bool {
    &&& rows.len() > 0
    &&& rows[0].len() > 0
    &&& forall|i: int| 0 <= i < rows.len() ==> #[trigger] rows[i].len() == rows[0].len()
}

/// Some cell of the rows holds `ch`.
pub open spec fn has_marker(rows: Seq<Seq<char>>, ch: char) -> bool {
    exists|r: int, c: int|
        0 <= r < rows.len() && 0 <= c < rows[r].len() && #[trigger] rows[r][c] == ch
}

/// `(r, c)` holds `ch` and no later cell in reading order does.
pub open spec fn last_marker(rows: Seq<Seq<char>>, ch: char, r: int, c: int) -> bool {
    &&& 0 <= r < rows.len()
    &&& 0 <= c < rows[r].len()
    &&& rows[r][c] == ch
    &&& forall|r2: int, c2: int|
        0 <= r2 < rows.len() && 0 <= c2 < rows[r2].len() && (r2 > r || (r2 == r && c2 > c))
            ==> #[trigger] rows[r2][c2] != ch
}

/// The rows can be read as a maze: rectangular, with a start and an end, and small
/// enough that every state has an index.
pub open spec fn readable(rows: Seq<Seq<char>>) -> bool {
    &&& rectangular(rows)
    &&& has_marker(rows, 'S')
    &&& has_marker(rows, 'E')
    &&& rows.len() * rows[0].len() * 4 <= usize::MAX
}

/// The maze that the rows describe: `#` is a wall, `S` the start, `E` the end, the rest floor.
pub open spec fn describes(m: Maze, rows: Seq<Seq<char>>) -> bool {
    &&& m.height == rows.len()
    &&& m.width == rows[0].len()
    &&& m.walls@.len() == m.width * m.height
    &&& forall|r: int, c: int|
        0 <= r < m.height && 0 <= c < m.width ==> m.walls@[m.cell_index(r, c)] == (#[trigger] rows[r][c]
            == '#')
    &&& last_marker(rows, 'S', m.start.row as int, m.start.col as int)
    &&& last_marker(rows, 'E', m.end.row as int, m.end.col as int)
}

/// Bounds on row-major indices.
pub proof fn lemma_cell_index(w: int, h: int, r: int, c: int)
    requires
        0 <= r < h,
        0 <= c < w,
    ensures
        0 <= r * w + c < w * h,
        (r * w + c) * 4 + 3 < w * h * 4,
{
    assert(r * w <= (h - 1) * w) by (nonlinear_arith)
        requires
            0 <= r < h,
            0 <= c < w,
    ;
    assert((h - 1) * w == w * h - w) by (nonlinear_arith);
    assert(0 <= r * w) by (nonlinear_arith)
        requires
            0 <= r,
            0 <= w,
    ;
}

/// A row-major index names one cell.
pub proof fn lemma_cell_index_unique(w: int, r: int, c: int)
    requires
        w > 0,
        0 <= r,
        0 <= c < w,
    ensures
        (r * w + c) / w == r,
        (r * w + c) % w == c,
{
    vstd::arithmetic::div_mod::lemma_fundamental_div_mod_converse(r * w + c, w, r, c);
}

impl Maze {
    /// A state index names one state.
    pub proof fn lemma_state_index_unique(&self, r1: int, c1: int, d1: Direction, r2: int, c2: int, d2: Direction)
        requires
            self.width > 0,
            self.in_bounds(r1, c1),
            self.in_bounds(r2, c2),
            self.state_index(r1, c1, d1) == self.state_index(r2, c2, d2),
        ensures
            r1 == r2 && c1 == c2 && d1 == d2,
    {
        let w = self.width as int;
        let i = self.state_index(r1, c1, d1);
        lemma_cell_index(w, self.height as int, r1, c1);
        lemma_cell_index(w, self.height as int, r2, c2);
        vstd::arithmetic::div_mod::lemma_fundamental_div_mod_converse(i, 4, r1 * w + c1, dir_index(d1));
        vstd::arithmetic::div_mod::lemma_fundamental_div_mod_converse(i, 4, r2 * w + c2, dir_index(d2));
        lemma_cell_index_unique(w, r1, c1);
        lemma_cell_index_unique(w, r2, c2);
    }

    /// Ledger slot of a state.
    pub fn state_slot(&self, r: usize, c: usize, d: Direction) -> (i: usize)
        requires
            self.wf(),
            self.in_bounds(r as int, c as int),
        ensures
            i == self.state_index(r as int, c as int, d),
            i < self.num_states(),
    {
        proof {
            lemma_cell_index(self.width as int, self.height as int, r as int, c as int);
        }
        (r * self.width + c) * 4 + (d.value() - 1) as usize
    }

    /// Whether the cell is a wall or lies outside the grid.
    pub fn is_wall(&self, cell: Cell) -> (r: bool)
        requires
            self.wf(),
        ensures
            r == !self.open_cell(cell.row as int, cell.col as int),
    {
        if cell.row >= self.height || cell.col >= self.width {
            return true;
        }
        proof {
            lemma_cell_index(self.width as int, self.height as int, cell.row as int, cell.col as int);
        }
        self.walls[cell.row * self.width + cell.col]
    }
}

} // verus!

verus! {

/// Sum of a ledger's entries, the measure that relaxation lowers.
pub open spec fn total(s: Seq<u64>) -> nat
    decreases s.len(),
{
    if s.len() == 0 {
        0
    } else {
        total(s.drop_last()) + s.last() as nat
    }
}

proof fn lemma_total_update(s: Seq<u64>, i: int, v: u64)
    requires
        0 <= i < s.len(),
    ensures
        total(s.update(i, v)) == total(s) - s[i] + v,
    decreases s.len(),
{
    let t = s.update(i, v);
    if i == s.len() - 1 {
        assert(t.drop_last() =~= s.drop_last());
    } else {
        assert(t.drop_last() =~= s.drop_last().update(i, v));
        lemma_total_update(s.drop_last(), i, v);
    }
}

proof fn lemma_count_marked_bound(s: Seq<bool>)
    ensures
        count_marked(s) <= s.len(),
    decreases s.len(),
{
    if s.len() > 0 {
        lemma_count_marked_bound(s.drop_last());
    }
}

impl Maze {
    /// Appending a move to a walk adds the cost of that move.
    pub proof fn lemma_walk_push(&self, p: Seq<State>, x: State)
        requires
            self.is_walk(p),
            self.is_move(p.last(), x),
        ensures
            self.is_walk(p.push(x)),
            walk_cost(p.push(x)) == walk_cost(p) + step_cost_of(p.last().2, x.2),
        decreases p.len(),
    {
        let q = p.push(x);
        assert forall|i: int| 0 <= i < q.len() - 1 implies #[trigger] self.step_at(q, i) by {
            if i < p.len() - 1 {
                assert(self.step_at(p, i));
            }
        }
        if p.len() == 1 {
            assert(q.drop_first() =~= seq![x]);
            assert(walk_cost(seq![x]) == 0);
        } else {
            let t = p.drop_first();
            assert(self.step_at(p, 0));
            assert(t.last() == p.last());
            assert(q[0] == p[0] && q[1] == p[1]);
            assert forall|i: int| 0 <= i < t.len() - 1 implies #[trigger] self.step_at(t, i) by {
                assert(self.step_at(p, i + 1));
            }
            self.lemma_walk_push(t, x);
            assert(q.drop_first() =~= t.push(x));
        }
    }

    /// Joining two walks that meet in a state adds their costs.
    pub proof fn lemma_walk_concat(&self, a: Seq<State>, b: Seq<State>)
        requires
            self.is_walk(a),
            self.is_walk(b),
            a.last() == b[0],
        ensures
            self.is_walk(a + b.drop_first()),
            walk_cost(a + b.drop_first()) == walk_cost(a) + walk_cost(b),
            (a + b.drop_first())[0] == a[0],
            (a + b.drop_first()).last() == b.last(),
            (a + b.drop_first()).len() == a.len() + b.len() - 1,
            forall|i: int| 0 <= i < a.len() ==> (a + b.drop_first())[i] == a[i],
        decreases a.len(),
    {
        let q = a + b.drop_first();
        if a.len() == 1 {
            assert(q =~= b);
        } else {
            let t = a.drop_first();
            assert(self.step_at(a, 0));
            assert forall|i: int| 0 <= i < t.len() - 1 implies #[trigger] self.step_at(t, i) by {
                assert(self.step_at(a, i + 1));
            }
            self.lemma_walk_concat(t, b);
            assert(q.drop_first() =~= t + b.drop_first());
            assert forall|i: int| 0 <= i < q.len() - 1 implies #[trigger] self.step_at(q, i) by {
                if i > 0 {
                    assert(q[i] == (t + b.drop_first())[i - 1]);
                    assert(q[i + 1] == (t + b.drop_first())[i]);
                    assert(self.step_at(t + b.drop_first(), i - 1));
                } else {
                    assert(self.step_at(a, 0));
                }
            }
        }
    }

    /// A walk splits at any of its states into a prefix and a suffix whose costs add up.
    pub proof fn lemma_walk_split(&self, p: Seq<State>, i: int)
        requires
            self.is_walk(p),
            0 <= i < p.len(),
        ensures
            self.is_walk(p.take(i + 1)),
            self.is_walk(p.skip(i)),
            walk_cost(p) == walk_cost(p.take(i + 1)) + walk_cost(p.skip(i)),
    {
        let a = p.take(i + 1);
        let b = p.skip(i);
        assert forall|j: int| 0 <= j < a.len() - 1 implies #[trigger] self.step_at(a, j) by {
            assert(self.step_at(p, j));
        }
        assert forall|j: int| 0 <= j < b.len() - 1 implies #[trigger] self.step_at(b, j) by {
            assert(self.step_at(p, i + j));
        }
        if i > 0 {
            assert(self.step_at(p, i - 1));
        }
        self.lemma_walk_concat(a, b);
        assert(a + b.drop_first() =~= p);
    }
}

} // verus!

verus! {

impl Maze {
    /// `p` walks from the start state to `s` at cost `k`.
    pub open spec fn reaches(&self, p: Seq<State>, s: State, k: nat) -> bool {
        &&& self.is_walk(p)
        &&& p[0] == self.start_state()
        &&& p.last() == s
        &&& walk_cost(p) == k
    }

    /// `p` walks from `s` to the end cell at cost `k`.
    pub open spec fn leads_out(&self, p: Seq<State>, s: State, k: nat) -> bool {
        &&& self.is_walk(p)
        &&& p[0] == s
        &&& self.at_end(p.last())
        &&& walk_cost(p) == k
    }

    /// Some walk of cost `k` joins `s` to the start (forward) or to the end (backward).
    pub open spec fn witnessed(&self, backward: bool, s: State, k: nat) -> bool {
        if backward {
            exists|p: Seq<State>| #[trigger] self.leads_out(p, s, k)
        } else {
            exists|p: Seq<State>| #[trigger] self.reaches(p, s, k)
        }
    }

    /// Every finite ledger entry is the cost of a walk, and the origin of the search costs nothing.
    pub open spec fn ledger_ok(&self, dist: Seq<u64>, backward: bool) -> bool {
        &&& dist.len() == self.num_states()
        &&& forall|r: int, c: int, d: Direction|
            #![trigger self.state_index(r, c, d)]
            self.in_bounds(r, c) && dist[self.state_index(r, c, d)] < UNREACHED ==> self.witnessed(
                backward,
                (r, c, d),
                dist[self.state_index(r, c, d)] as nat,
            )
        &&& backward ==> forall|d: Direction|
            dist[#[trigger] self.state_index(self.end.row as int, self.end.col as int, d)] == 0
        &&& !backward ==> dist[self.state_index(
            self.start.row as int,
            self.start.col as int,
            Direction::East,
        )] == 0
    }

    /// The ledger cannot be improved along the move from `(r, c, d)` facing `nd`.
    pub open spec fn edge_ok(
        &self,
        dist: Seq<u64>,
        backward: bool,
        r: int,
        c: int,
        d: Direction,
        nd: Direction,
    ) -> bool {
        let r2 = r + row_delta(nd);
        let c2 = c + col_delta(nd);
        self.open_cell(r, c) && self.open_cell(r2, c2) ==> if backward {
            dist[self.state_index(r, c, d)] <= dist[self.state_index(r2, c2, nd)] + step_cost_of(d, nd)
        } else {
            dist[self.state_index(r2, c2, nd)] <= dist[self.state_index(r, c, d)] + step_cost_of(d, nd)
        }
    }

    /// No move improves the ledger.
    pub open spec fn settled(&self, dist: Seq<u64>, backward: bool) -> bool {
        forall|r: int, c: int, d: Direction, nd: Direction|
            #[trigger] self.edge_ok(dist, backward, r, c, d, nd)
    }

    /// The cell one step from `(r, c)` facing `d`, if it lies in the grid.
    pub fn step_target(&self, r: usize, c: usize, d: Direction) -> (t: Option<Cell>)
        requires
            self.wf(),
        ensures
            match t {
                Some(cell) => cell.row == r + row_delta(d) && cell.col == c + col_delta(d)
                    && self.in_bounds(cell.row as int, cell.col as int),
                None => !self.in_bounds(r + row_delta(d), c + col_delta(d)),
            },
    {
        match d {
            Direction::North => if r >= 1 && r - 1 < self.height && c < self.width {
                Some(Cell { row: r - 1, col: c })
            } else {
                None
            },
            Direction::South => if r < self.height - 1 && c < self.width {
                Some(Cell { row: r + 1, col: c })
            } else {
                None
            },
            Direction::East => if c < self.width - 1 && r < self.height {
                Some(Cell { row: r, col: c + 1 })
            } else {
                None
            },
            Direction::West => if c >= 1 && c - 1 < self.width && r < self.height {
                Some(Cell { row: r, col: c - 1 })
            } else {
                None
            },
        }
    }

    /// Lowers one ledger entry along the move from `(r, c, d)` facing `nd`, if that helps.
    /// Forward ledgers push to the move's target; backward ledgers pull into its source.
    fn relax_edge(
        &self,
        dist: &mut Vec<u64>,
        backward: bool,
        r: usize,
        c: usize,
        d: Direction,
        nd: Direction,
    ) -> (changed: bool)
        requires
            self.wf(),
            self.ledger_ok(old(dist)@, backward),
            self.in_bounds(r as int, c as int),
        ensures
            self.ledger_ok(final(dist)@, backward),
            total(final(dist)@) <= total(old(dist)@),
            changed ==> total(final(dist)@) < total(old(dist)@),
            !changed ==> final(dist)@ == old(dist)@ && self.edge_ok(
                final(dist)@,
                backward,
                r as int,
                c as int,
                d,
                nd,
            ),
    {
        if self.is_wall(Cell { row: r, col: c }) {
            return false;
        }
        let t = match self.step_target(r, c, nd) {
            Some(t) => t,
            None => {
                return false;
            },
        };
        if self.is_wall(t) {
            return false;
        }
        let si = self.state_slot(r, c, d);
        let ti = self.state_slot(t.row, t.col, nd);
        let w = step_cost(d, nd);
        let ghost s: State = (r as int, c as int, d);
        let ghost x: State = (t.row as int, t.col as int, nd);
        assert(self.is_move(s, x));
        if !backward {
            let ds = dist[si];
            if ds >= UNREACHED - w {
                return false;
            }
            let cand = ds + w;
            if cand >= dist[ti] {
                return false;
            }
            proof {
                assert(self.witnessed(false, s, ds as nat));
                let p = choose|p: Seq<State>| self.reaches(p, s, ds as nat);
                self.lemma_walk_push(p, x);
                assert(self.reaches(p.push(x), x, cand as nat));
                lemma_total_update(dist@, ti as int, cand);
            }
            let ghost before = dist@;
            dist.set(ti, cand);
            proof {
                assert forall|r2: int, c2: int, d2: Direction|
                    #![trigger self.state_index(r2, c2, d2)]
                    self.in_bounds(r2, c2) && dist@[self.state_index(r2, c2, d2)] < UNREACHED
                        implies self.witnessed(
                        false,
                        (r2, c2, d2),
                        dist@[self.state_index(r2, c2, d2)] as nat,
                    ) by {
                    lemma_cell_index(self.width as int, self.height as int, r2, c2);
                    if self.state_index(r2, c2, d2) == ti {
                        self.lemma_state_index_unique(r2, c2, d2, x.0, x.1, x.2);
                    } else {
                        assert(before[self.state_index(r2, c2, d2)] < UNREACHED);
                    }
                }
                let (sr, sc) = (self.start.row as int, self.start.col as int);
                lemma_cell_index(self.width as int, self.height as int, sr, sc);
                assert(before[self.state_index(sr, sc, Direction::East)] == 0);
                assert(dist@[self.state_index(sr, sc, Direction::East)] == 0);
            }
            true
        } else {
            let dt = dist[ti];
            if dt >= UNREACHED - w {
                return false;
            }
            let cand = dt + w;
            if cand >= dist[si] {
                return false;
            }
            proof {
                assert(self.witnessed(true, x, dt as nat));
                let p = choose|p: Seq<State>| self.leads_out(p, x, dt as nat);
                let q = seq![s] + p;
                assert(q.drop_first() =~= p);
                assert(self.step_at(q, 0));
                assert forall|i: int| 0 <= i < q.len() - 1 implies #[trigger] self.step_at(q, i) by {
                    if i > 0 {
                        assert(self.step_at(p, i - 1));
                    }
                }
                assert(self.leads_out(q, s, cand as nat));
                lemma_total_update(dist@, si as int, cand);
            }
            let ghost before = dist@;
            dist.set(si, cand);
            proof {
                assert forall|r2: int, c2: int, d2: Direction|
                    #![trigger self.state_index(r2, c2, d2)]
                    self.in_bounds(r2, c2) && dist@[self.state_index(r2, c2, d2)] < UNREACHED
                        implies self.witnessed(
                        true,
                        (r2, c2, d2),
                        dist@[self.state_index(r2, c2, d2)] as nat,
                    ) by {
                    lemma_cell_index(self.width as int, self.height as int, r2, c2);
                    if self.state_index(r2, c2, d2) == si {
                        self.lemma_state_index_unique(r2, c2, d2, s.0, s.1, s.2);
                    } else {
                        assert(before[self.state_index(r2, c2, d2)] < UNREACHED);
                    }
                }
                assert forall|d2: Direction|
                    dist@[#[trigger] self.state_index(
                        self.end.row as int,
                        self.end.col as int,
                        d2,
                    )] == 0 by {
                    lemma_cell_index(
                        self.width as int,
                        self.height as int,
                        self.end.row as int,
                        self.end.col as int,
                    );
                    assert(before[self.state_index(self.end.row as int, self.end.col as int, d2)]
                        == 0);
                }
            }
            true
        }
    }
}

} // verus!

verus! {

impl Maze {
    /// Relaxes the four moves out of `(r, c, d)`.
    fn relax_state(&self, dist: &mut Vec<u64>, backward: bool, r: usize, c: usize, d: Direction) -> (changed: bool)
        requires
            self.wf(),
            self.ledger_ok(old(dist)@, backward),
            self.in_bounds(r as int, c as int),
        ensures
            self.ledger_ok(final(dist)@, backward),
            total(final(dist)@) <= total(old(dist)@),
            changed ==> total(final(dist)@) < total(old(dist)@),
            !changed ==> final(dist)@ == old(dist)@ && forall|nd: Direction|
                #[trigger] self.edge_ok(final(dist)@, backward, r as int, c as int, d, nd),
    {
        let c1 = self.relax_edge(dist, backward, r, c, d, Direction::North);
        let c2 = self.relax_edge(dist, backward, r, c, d, Direction::East);
        let c3 = self.relax_edge(dist, backward, r, c, d, Direction::South);
        let c4 = self.relax_edge(dist, backward, r, c, d, Direction::West);
        proof {
            if !(c1 || c2 || c3 || c4) {
                assert forall|nd: Direction|
                    #[trigger] self.edge_ok(dist@, backward, r as int, c as int, d, nd) by {
                    match nd {
                        Direction::North => {},
                        Direction::East => {},
                        Direction::South => {},
                        Direction::West => {},
                    }
                }
            }
        }
        c1 || c2 || c3 || c4
    }

    /// Relaxes every move out of every state of cell `(r, c)`.
    fn relax_cell(&self, dist: &mut Vec<u64>, backward: bool, r: usize, c: usize) -> (changed: bool)
        requires
            self.wf(),
            self.ledger_ok(old(dist)@, backward),
            self.in_bounds(r as int, c as int),
        ensures
            self.ledger_ok(final(dist)@, backward),
            total(final(dist)@) <= total(old(dist)@),
            changed ==> total(final(dist)@) < total(old(dist)@),
            !changed ==> final(dist)@ == old(dist)@ && forall|d: Direction, nd: Direction|
                #[trigger] self.edge_ok(final(dist)@, backward, r as int, c as int, d, nd),
    {
        let c1 = self.relax_state(dist, backward, r, c, Direction::North);
        let c2 = self.relax_state(dist, backward, r, c, Direction::East);
        let c3 = self.relax_state(dist, backward, r, c, Direction::South);
        let c4 = self.relax_state(dist, backward, r, c, Direction::West);
        proof {
            if !(c1 || c2 || c3 || c4) {
                assert forall|d: Direction, nd: Direction|
                    #[trigger] self.edge_ok(dist@, backward, r as int, c as int, d, nd) by {
                    match d {
                        Direction::North => {},
                        Direction::East => {},
                        Direction::South => {},
                        Direction::West => {},
                    }
                }
            }
        }
        c1 || c2 || c3 || c4
    }

    /// One pass of relaxation over the whole grid. When it changes nothing the ledger is settled.
    fn relax_round(&self, dist: &mut Vec<u64>, backward: bool) -> (changed: bool)
        requires
            self.wf(),
            self.ledger_ok(old(dist)@, backward),
        ensures
            self.ledger_ok(final(dist)@, backward),
            total(final(dist)@) <= total(old(dist)@),
            changed ==> total(final(dist)@) < total(old(dist)@),
            !changed ==> final(dist)@ == old(dist)@ && self.settled(final(dist)@, backward),
    {
        let ghost start = dist@;
        let mut changed = false;
        let mut r: usize = 0;
        while r < self.height
            invariant
                self.wf(),
                r <= self.height,
                self.ledger_ok(dist@, backward),
                total(dist@) <= total(start),
                changed ==> total(dist@) < total(start),
                !changed ==> dist@ == start && forall|r2: int, c2: int, d: Direction, nd: Direction|
                    0 <= r2 < r && 0 <= c2 < self.width ==> #[trigger] self.edge_ok(
                        dist@,
                        backward,
                        r2,
                        c2,
                        d,
                        nd,
                    ),
            decreases self.height - r,
        {
            let mut c: usize = 0;
            while c < self.width
                invariant
                    self.wf(),
                    r < self.height,
                    c <= self.width,
                    self.ledger_ok(dist@, backward),
                    total(dist@) <= total(start),
                    changed ==> total(dist@) < total(start),
                    !changed ==> dist@ == start && forall|r2: int, c2: int, d: Direction, nd: Direction|
                        ((0 <= r2 < r && 0 <= c2 < self.width) || (r2 == r && 0 <= c2 < c))
                            ==> #[trigger] self.edge_ok(dist@, backward, r2, c2, d, nd),
                decreases self.width - c,
            {
                let ch = self.relax_cell(dist, backward, r, c);
                changed = changed || ch;
                c = c + 1;
            }
            r = r + 1;
        }
        proof {
            if !changed {
                assert forall|r2: int, c2: int, d: Direction, nd: Direction|
                    #[trigger] self.edge_ok(dist@, backward, r2, c2, d, nd) by {
                    if !self.in_bounds(r2, c2) {
                        assert(!self.open_cell(r2, c2));
                    }
                }
            }
        }
        changed
    }

    /// Relaxes until nothing changes.
    fn settle(&self, dist: &mut Vec<u64>, backward: bool)
        requires
            self.wf(),
            self.ledger_ok(old(dist)@, backward),
        ensures
            self.ledger_ok(final(dist)@, backward),
            self.settled(final(dist)@, backward),
    {
        let mut changed = true;
        while changed
            invariant
                self.wf(),
                self.ledger_ok(dist@, backward),
                !changed ==> self.settled(dist@, backward),
            decreases total(dist@) + if changed {
                1nat
            } else {
                0nat
            },
        {
            changed = self.relax_round(dist, backward);
        }
    }

    /// A ledger where only the origin is reached: the start state going forward, every state
    /// on the end cell going backward.
    fn initial_ledger(&self, backward: bool) -> (dist: Vec<u64>)
        requires
            self.wf(),
        ensures
            self.ledger_ok(dist@, backward),
    {
        let n = self.width * self.height * 4;
        let mut dist: Vec<u64> = Vec::new();
        let mut i: usize = 0;
        while i < n
            invariant
                n == self.num_states(),
                i <= n,
                dist@.len() == i,
                forall|j: int| 0 <= j < i ==> dist@[j] == UNREACHED,
            decreases n - i,
        {
            dist.push(UNREACHED);
            i = i + 1;
        }
        let ghost full = dist@;
        if backward {
            let e = self.end;
            let i0 = self.state_slot(e.row, e.col, Direction::North);
            let i1 = self.state_slot(e.row, e.col, Direction::East);
            let i2 = self.state_slot(e.row, e.col, Direction::South);
            let i3 = self.state_slot(e.row, e.col, Direction::West);
            dist.set(i0, 0);
            dist.set(i1, 0);
            dist.set(i2, 0);
            dist.set(i3, 0);
            proof {
                assert forall|r: int, c: int, d: Direction|
                    #![trigger self.state_index(r, c, d)]
                    self.in_bounds(r, c) && dist@[self.state_index(r, c, d)] < UNREACHED
                        implies self.witnessed(
                        true,
                        (r, c, d),
                        dist@[self.state_index(r, c, d)] as nat,
                    ) by {
                    lemma_cell_index(self.width as int, self.height as int, r, c);
                    let k = self.state_index(r, c, d);
                    if k != i0 && k != i1 && k != i2 && k != i3 {
                        assert(full[k] == UNREACHED);
                    } else {
                        let e2 = (e.row as int, e.col as int);
                        if k == i0 {
                            self.lemma_state_index_unique(r, c, d, e2.0, e2.1, Direction::North);
                        } else if k == i1 {
                            self.lemma_state_index_unique(r, c, d, e2.0, e2.1, Direction::East);
                        } else if k == i2 {
                            self.lemma_state_index_unique(r, c, d, e2.0, e2.1, Direction::South);
                        } else {
                            self.lemma_state_index_unique(r, c, d, e2.0, e2.1, Direction::West);
                        }
                        let p = seq![(r, c, d)];
                        assert(walk_cost(p) == 0);
                        assert(self.leads_out(p, (r, c, d), 0));
                    }
                }
                assert forall|d: Direction|
                    dist@[#[trigger] self.state_index(e.row as int, e.col as int, d)] == 0 by {
                    match d {
                        Direction::North => {},
                        Direction::East => {},
                        Direction::South => {},
                        Direction::West => {},
                    }
                }
            }
        } else {
            let s = self.start;
            let i0 = self.state_slot(s.row, s.col, Direction::East);
            dist.set(i0, 0);
            proof {
                assert forall|r: int, c: int, d: Direction|
                    #![trigger self.state_index(r, c, d)]
                    self.in_bounds(r, c) && dist@[self.state_index(r, c, d)] < UNREACHED
                        implies self.witnessed(
                        false,
                        (r, c, d),
                        dist@[self.state_index(r, c, d)] as nat,
                    ) by {
                    lemma_cell_index(self.width as int, self.height as int, r, c);
                    let k = self.state_index(r, c, d);
                    if k != i0 {
                        assert(full[k] == UNREACHED);
                    } else {
                        self.lemma_state_index_unique(
                            r,
                            c,
                            d,
                            s.row as int,
                            s.col as int,
                            Direction::East,
                        );
                        let p = seq![(r, c, d)];
                        assert(walk_cost(p) == 0);
                        assert(self.reaches(p, (r, c, d), 0));
                    }
                }
            }
        }
        dist
    }
}

} // verus!

verus! {

impl Maze {
    /// A settled forward ledger costs no more than any walk from the start state.
    pub proof fn lemma_forward_bound(&self, dist: Seq<u64>, p: Seq<State>)
        requires
            self.wf(),
            self.ledger_ok(dist, false),
            self.settled(dist, false),
            self.is_walk(p),
            p[0] == self.start_state(),
        ensures
            dist[self.state_index(p.last().0, p.last().1, p.last().2)] <= walk_cost(p),
        decreases p.len(),
    {
        if p.len() > 1 {
            let q = p.drop_last();
            assert forall|i: int| 0 <= i < q.len() - 1 implies #[trigger] self.step_at(q, i) by {
                assert(self.step_at(p, i));
            }
            self.lemma_forward_bound(dist, q);
            assert(self.step_at(p, p.len() - 2));
            let a = q.last();
            let b = p.last();
            self.lemma_walk_push(q, b);
            assert(q.push(b) =~= p);
            if q.len() > 1 {
                assert(self.step_at(q, q.len() - 2));
            }
            assert(self.open_cell(a.0, a.1));
            assert(self.edge_ok(dist, false, a.0, a.1, a.2, b.2));
        }
    }

    /// A settled backward ledger costs no more than any walk to the end cell.
    pub proof fn lemma_backward_bound(&self, dist: Seq<u64>, p: Seq<State>)
        requires
            self.wf(),
            self.ledger_ok(dist, true),
            self.settled(dist, true),
            self.is_walk(p),
            self.at_end(p.last()),
        ensures
            dist[self.state_index(p[0].0, p[0].1, p[0].2)] <= walk_cost(p),
        decreases p.len(),
    {
        if p.len() == 1 {
            assert(dist[self.state_index(self.end.row as int, self.end.col as int, p[0].2)] == 0);
        } else {
            let q = p.drop_first();
            assert(self.step_at(p, 0));
            assert forall|i: int| 0 <= i < q.len() - 1 implies #[trigger] self.step_at(q, i) by {
                assert(self.step_at(p, i + 1));
            }
            self.lemma_backward_bound(dist, q);
            assert(self.edge_ok(dist, true, p[0].0, p[0].1, p[0].2, p[1].2));
        }
    }
}

} // verus!

verus! {

impl Maze {
    /// Through state `(r, c, d)` the cheapest way in plus the cheapest way out is `best`.
    pub open spec fn state_optimal(&self, fwd: Seq<u64>, bwd: Seq<u64>, best: nat, r: int, c: int, d: Direction) -> bool {
        let k = self.state_index(r, c, d);
        &&& fwd[k] < UNREACHED
        &&& bwd[k] < UNREACHED
        &&& fwd[k] + bwd[k] == best
    }

    /// A cell lies on a cheapest route exactly when one of its states joins a cheapest
    /// way in to a cheapest way out at the least cost.
    pub proof fn lemma_tile(&self, fwd: Seq<u64>, bwd: Seq<u64>, best: nat, r: int, c: int)
        requires
            self.wf(),
            self.ledger_ok(fwd, false),
            self.settled(fwd, false),
            self.ledger_ok(bwd, true),
            self.settled(bwd, true),
            self.is_min_cost(best),
            best < UNREACHED,
            self.in_bounds(r, c),
        ensures
            self.on_optimal_route(r, c) <==> exists|d: Direction| #[trigger] self.state_optimal(fwd, bwd, best, r, c, d),
    {
        lemma_cell_index(self.width as int, self.height as int, r, c);
        if exists|d: Direction| #[trigger] self.state_optimal(fwd, bwd, best, r, c, d) {
            let d = choose|d: Direction| #[trigger] self.state_optimal(fwd, bwd, best, r, c, d);
            let k = self.state_index(r, c, d);
            let s: State = (r, c, d);
            assert(self.witnessed(false, s, fwd[k] as nat));
            assert(self.witnessed(true, s, bwd[k] as nat));
            let pf = choose|p: Seq<State>| self.reaches(p, s, fwd[k] as nat);
            let pb = choose|p: Seq<State>| self.leads_out(p, s, bwd[k] as nat);
            self.lemma_walk_concat(pf, pb);
            let q = pf + pb.drop_first();
            let i = pf.len() - 1;
            assert(self.is_route(q));
            assert(q[i] == s);
            assert(self.is_route(q) && self.is_min_cost(walk_cost(q)) && 0 <= i < q.len() && q[i].0 == r && q[i].1 == c);
        }
        if self.on_optimal_route(r, c) {
            let (p, i) = choose|p: Seq<State>, i: int|
                #![trigger self.is_route(p), p[i]]
                self.is_route(p) && self.is_min_cost(walk_cost(p)) && 0 <= i < p.len() && p[i].0 == r
                    && p[i].1 == c;
            let pm = choose|p: Seq<State>| #[trigger] self.is_route(p) && walk_cost(p) == best;
            assert(walk_cost(p) <= walk_cost(pm));
            assert(best <= walk_cost(p));
            let s = p[i];
            let k = self.state_index(r, c, s.2);
            self.lemma_walk_split(p, i);
            let pre = p.take(i + 1);
            let suf = p.skip(i);
            self.lemma_forward_bound(fwd, pre);
            self.lemma_backward_bound(bwd, suf);
            assert(fwd[k] + bwd[k] <= best);
            assert(self.witnessed(false, s, fwd[k] as nat));
            assert(self.witnessed(true, s, bwd[k] as nat));
            let pf = choose|p: Seq<State>| self.reaches(p, s, fwd[k] as nat);
            let pb = choose|p: Seq<State>| self.leads_out(p, s, bwd[k] as nat);
            self.lemma_walk_concat(pf, pb);
            assert(self.is_route(pf + pb.drop_first()));
            assert(self.state_optimal(fwd, bwd, best, r, c, s.2));
        }
    }

    /// Whether state `(r, c, d)` joins a cheapest way in to a cheapest way out at cost `best`.
    fn state_is_optimal(&self, fwd: &Vec<u64>, bwd: &Vec<u64>, best: u64, r: usize, c: usize, d: Direction) -> (b: bool)
        requires
            self.wf(),
            fwd@.len() == self.num_states(),
            bwd@.len() == self.num_states(),
            self.in_bounds(r as int, c as int),
        ensures
            b == self.state_optimal(fwd@, bwd@, best as nat, r as int, c as int, d),
    {
        let k = self.state_slot(r, c, d);
        let f = fwd[k];
        let g = bwd[k];
        f < UNREACHED && g < UNREACHED && f <= best && g == best - f
    }

    /// Whether some state of cell `(r, c)` is optimal.
    fn cell_is_optimal(&self, fwd: &Vec<u64>, bwd: &Vec<u64>, best: u64, r: usize, c: usize) -> (b: bool)
        requires
            self.wf(),
            fwd@.len() == self.num_states(),
            bwd@.len() == self.num_states(),
            self.in_bounds(r as int, c as int),
        ensures
            b == exists|d: Direction| #[trigger] self.state_optimal(fwd@, bwd@, best as nat, r as int, c as int, d),
    {
        let b0 = self.state_is_optimal(fwd, bwd, best, r, c, Direction::North);
        let b1 = self.state_is_optimal(fwd, bwd, best, r, c, Direction::East);
        let b2 = self.state_is_optimal(fwd, bwd, best, r, c, Direction::South);
        let b3 = self.state_is_optimal(fwd, bwd, best, r, c, Direction::West);
        proof {
            if exists|d: Direction| #[trigger] self.state_optimal(fwd@, bwd@, best as nat, r as int, c as int, d) {
                let d = choose|d: Direction| #[trigger] self.state_optimal(fwd@, bwd@, best as nat, r as int, c as int, d);
                match d {
                    Direction::North => {},
                    Direction::East => {},
                    Direction::South => {},
                    Direction::West => {},
                }
            }
        }
        b0 || b1 || b2 || b3
    }

    /// The least route cost, and how many cells lie on at least one route of that cost.
    pub fn solve(&self) -> (res: Result<(u64, usize), MazeError>)
        requires
            self.wf(),
        ensures
            match res {
                Ok((best, count)) => self.is_min_cost(best as nat) && count == count_marked(
                    self.optimal_mask(),
                ),
                Err(e) => e == MazeError::NoPath && forall|p: Seq<State>|
                    #[trigger] self.is_route(p) ==> walk_cost(p) >= UNREACHED,
            },
    {
        let mut fwd = self.initial_ledger(false);
        self.settle(&mut fwd, false);
        let e = self.end;
        let f0 = fwd[self.state_slot(e.row, e.col, Direction::North)];
        let f1 = fwd[self.state_slot(e.row, e.col, Direction::East)];
        let f2 = fwd[self.state_slot(e.row, e.col, Direction::South)];
        let f3 = fwd[self.state_slot(e.row, e.col, Direction::West)];
        let mut best = f0;
        if f1 < best {
            best = f1;
        }
        if f2 < best {
            best = f2;
        }
        if f3 < best {
            best = f3;
        }
        let ghost er = e.row as int;
        let ghost ec = e.col as int;
        proof {
            assert forall|p: Seq<State>| #[trigger] self.is_route(p) implies best <= walk_cost(p) by {
                self.lemma_forward_bound(fwd@, p);
                match p.last().2 {
                    Direction::North => {},
                    Direction::East => {},
                    Direction::South => {},
                    Direction::West => {},
                }
            }
        }
        if best == UNREACHED {
            return Err(MazeError::NoPath);
        }
        proof {
            lemma_cell_index(self.width as int, self.height as int, er, ec);
            let d = if best == f0 {
                Direction::North
            } else if best == f1 {
                Direction::East
            } else if best == f2 {
                Direction::South
            } else {
                Direction::West
            };
            let s: State = (er, ec, d);
            assert(self.witnessed(false, s, best as nat));
            let p = choose|p: Seq<State>| self.reaches(p, s, best as nat);
            assert(self.is_route(p));
        }
        let mut bwd = self.initial_ledger(true);
        self.settle(&mut bwd, true);
        let ghost mask = self.optimal_mask();
        let mut count: usize = 0;
        let mut k: usize = 0;
        let mut r: usize = 0;
        while r < self.height
            invariant
                self.wf(),
                self.ledger_ok(fwd@, false),
                self.settled(fwd@, false),
                self.ledger_ok(bwd@, true),
                self.settled(bwd@, true),
                self.is_min_cost(best as nat),
                best < UNREACHED,
                mask == self.optimal_mask(),
                r <= self.height,
                k == r * self.width,
                count == count_marked(mask.take(k as int)),
            decreases self.height - r,
        {
            proof {
                assert(k + self.width <= self.width * self.height) by (nonlinear_arith)
                    requires
                        k == r * self.width,
                        r < self.height,
                ;
            }
            let mut c: usize = 0;
            while c < self.width
                invariant
                    self.wf(),
                    self.ledger_ok(fwd@, false),
                    self.settled(fwd@, false),
                    self.ledger_ok(bwd@, true),
                    self.settled(bwd@, true),
                    self.is_min_cost(best as nat),
                    best < UNREACHED,
                    mask == self.optimal_mask(),
                    r < self.height,
                    c <= self.width,
                    k == r * self.width + c,
                    k + self.width - c <= self.width * self.height,
                    count == count_marked(mask.take(k as int)),
                decreases self.width - c,
            {
                let on = self.cell_is_optimal(&fwd, &bwd, best, r, c);
                proof {
                    self.lemma_tile(fwd@, bwd@, best as nat, r as int, c as int);
                    lemma_cell_index_unique(self.width as int, r as int, c as int);
                    assert(mask[k as int] == on);
                    assert(mask.take(k + 1).drop_last() =~= mask.take(k as int));
                    lemma_count_marked_bound(mask.take(k as int));
                }
                if on {
                    count = count + 1;
                }
                k = k + 1;
                c = c + 1;
            }
            proof {
                assert((r + 1) * self.width == r * self.width + self.width) by (nonlinear_arith);
            }
            r = r + 1;
        }
        proof {
            assert(r == self.height);
            assert(k == self.width * self.height) by (nonlinear_arith)
                requires
                    k == r * self.width,
                    r == self.height,
            ;
            assert(mask.take(k as int) =~= mask);
        }
        Ok((best, count))
    }
}

} // verus!

verus! {

/// `(r2, c2)` comes before `(r, c)` in reading order.
pub open spec fn read_before(r2: int, c2: int, r: int, c: int) -> bool {
    r2 < r || (r2 == r && c2 < c)
}

impl Maze {
    /// Reads a maze from its rows.
    pub fn from_rows(rows: &Vec<Vec<char>>) -> (res: Result<Maze, MazeError>)
        ensures
            match res {
                Ok(m) => readable(rows_view(rows@)) && m.wf() && describes(m, rows_view(rows@)),
                Err(e) => e == MazeError::MalformedGrid && !readable(rows_view(rows@)),
            },
    {
        let ghost g = rows_view(rows@);
        if rows.len() == 0 {
            return Err(MazeError::MalformedGrid);
        }
        let width = rows[0].len();
        if width == 0 {
            return Err(MazeError::MalformedGrid);
        }
        let height = rows.len();
        let mut i: usize = 0;
        while i < height
            invariant
                height == rows@.len(),
                g == rows_view(rows@),
                width == g[0].len(),
                i <= height,
                forall|j: int| 0 <= j < i ==> #[trigger] g[j].len() == width,
            decreases height - i,
        {
            assert(g[i as int] == rows@[i as int]@);
            if rows[i].len() != width {
                assert(!rectangular(g));
                return Err(MazeError::MalformedGrid);
            }
            i = i + 1;
        }
        assert(rectangular(g));
        let cells = match height.checked_mul(width) {
            Some(n) => n,
            None => {
                return Err(MazeError::MalformedGrid);
            },
        };
        match cells.checked_mul(4) {
            Some(_) => {},
            None => {
                return Err(MazeError::MalformedGrid);
            },
        }
        let mut walls: Vec<bool> = Vec::new();
        let mut start: Option<Cell> = None;
        let mut end: Option<Cell> = None;
        let mut r: usize = 0;
        while r < height
            invariant
                height == g.len(),
                g == rows_view(rows@),
                rectangular(g),
                width == g[0].len(),
                cells == width * height,
                r <= height,
                walls@.len() == r * width,
                forall|j: int| 0 <= j < walls@.len() ==> #[trigger] walls@[j] == (g[j / width as int][j % width as int] == '#'),
                match start {
                    Some(s) => read_before(s.row as int, s.col as int, r as int, 0) && s.col < width && g[s.row as int][s.col as int] == 'S'
                        && forall|r2: int, c2: int| read_before(r2, c2, r as int, 0) && 0 <= c2 < width && read_before(s.row as int, s.col as int, r2, c2) ==> #[trigger] g[r2][c2] != 'S',
                    None => forall|r2: int, c2: int| 0 <= r2 < r && 0 <= c2 < width ==> #[trigger] g[r2][c2] != 'S',
                },
                match end {
                    Some(s) => read_before(s.row as int, s.col as int, r as int, 0) && s.col < width && g[s.row as int][s.col as int] == 'E'
                        && forall|r2: int, c2: int| read_before(r2, c2, r as int, 0) && 0 <= c2 < width && read_before(s.row as int, s.col as int, r2, c2) ==> #[trigger] g[r2][c2] != 'E',
                    None => forall|r2: int, c2: int| 0 <= r2 < r && 0 <= c2 < width ==> #[trigger] g[r2][c2] != 'E',
                },
            decreases height - r,
        {
            assert(g[r as int].len() == width);
            let mut c: usize = 0;
            while c < width
                invariant
                    height == g.len(),
                    g == rows_view(rows@),
                    rectangular(g),
                    width == g[0].len(),
                    g[r as int].len() == width,
                    cells == width * height,
                    r < height,
                    c <= width,
                    walls@.len() == r * width + c,
                    forall|j: int| 0 <= j < walls@.len() ==> #[trigger] walls@[j] == (g[j / width as int][j % width as int] == '#'),
                    match start {
                        Some(s) => read_before(s.row as int, s.col as int, r as int, c as int) && s.col < width && g[s.row as int][s.col as int] == 'S'
                            && forall|r2: int, c2: int| read_before(r2, c2, r as int, c as int) && 0 <= c2 < width && read_before(s.row as int, s.col as int, r2, c2) ==> #[trigger] g[r2][c2] != 'S',
                        None => forall|r2: int, c2: int| read_before(r2, c2, r as int, c as int) && 0 <= r2 && 0 <= c2 < width ==> #[trigger] g[r2][c2] != 'S',
                    },
                    match end {
                        Some(s) => read_before(s.row as int, s.col as int, r as int, c as int) && s.col < width && g[s.row as int][s.col as int] == 'E'
                            && forall|r2: int, c2: int| read_before(r2, c2, r as int, c as int) && 0 <= c2 < width && read_before(s.row as int, s.col as int, r2, c2) ==> #[trigger] g[r2][c2] != 'E',
                        None => forall|r2: int, c2: int| read_before(r2, c2, r as int, c as int) && 0 <= r2 && 0 <= c2 < width ==> #[trigger] g[r2][c2] != 'E',
                    },
                decreases width - c,
            {
                let ch = rows[r][c];
                assert(ch == g[r as int][c as int]);
                proof {
                    lemma_cell_index_unique(width as int, r as int, c as int);
                    lemma_cell_index(width as int, height as int, r as int, c as int);
                }
                walls.push(ch == '#');
                if ch == 'S' {
                    start = Some(Cell { row: r, col: c });
                }
                if ch == 'E' {
                    end = Some(Cell { row: r, col: c });
                }
                c = c + 1;
            }
            proof {
                assert((r + 1) * width == r * width + width) by (nonlinear_arith);
            }
            r = r + 1;
        }
        proof {
            assert(walls@.len() == width * height) by (nonlinear_arith)
                requires
                    walls@.len() == r * width,
                    r == height,
            ;
        }
        let (s, e) = match (start, end) {
            (Some(s), Some(e)) => (s, e),
            _ => {
                proof {
                    if start is None {
                        assert forall|r2: int, c2: int| 0 <= r2 < g.len() && 0 <= c2 < g[r2].len() implies #[trigger] g[r2][c2] != 'S' by {
                            assert(g[r2].len() == width);
                        }
                    } else {
                        assert forall|r2: int, c2: int| 0 <= r2 < g.len() && 0 <= c2 < g[r2].len() implies #[trigger] g[r2][c2] != 'E' by {
                            assert(g[r2].len() == width);
                        }
                    }
                }
                return Err(MazeError::MalformedGrid);
            },
        };
        let m = Maze { width, height, walls, start: s, end: e };
        proof {
            assert(has_marker(g, 'S'));
            assert(has_marker(g, 'E'));
            assert forall|r2: int, c2: int| 0 <= r2 < m.height && 0 <= c2 < m.width implies m.walls@[m.cell_index(r2, c2)] == (#[trigger] g[r2][c2] == '#') by {
                lemma_cell_index_unique(width as int, r2, c2);
                lemma_cell_index(width as int, height as int, r2, c2);
            }
            assert forall|r2: int, c2: int| 0 <= r2 < g.len() && 0 <= c2 < g[r2].len() && (r2 > s.row || (r2 == s.row && c2 > s.col)) implies #[trigger] g[r2][c2] != 'S' by {
                assert(g[r2].len() == width);
            }
            assert forall|r2: int, c2: int| 0 <= r2 < g.len() && 0 <= c2 < g[r2].len() && (r2 > e.row || (r2 == e.row && c2 > e.col)) implies #[trigger] g[r2][c2] != 'E' by {
                assert(g[r2].len() == width);
            }
            assert(g[s.row as int].len() == width);
            assert(g[e.row as int].len() == width);
            lemma_cell_index(width as int, height as int, s.row as int, s.col as int);
            lemma_cell_index(width as int, height as int, e.row as int, e.col as int);
            assert(m.walls@[m.cell_index(s.row as int, s.col as int)] == (g[s.row as int][s.col as int] == '#'));
            assert(m.walls@[m.cell_index(e.row as int, e.col as int)] == (g[e.row as int][e.col as int] == '#'));
        }
        Ok(m)
    }

    /// Reads a maze from text: one row per line, blank lines ignored.
    pub fn parse(text: &str) -> (res: Result<Maze, MazeError>)
        ensures
            match res {
                Ok(m) => readable(lines_of(text@)) && m.wf() && describes(m, lines_of(text@)),
                Err(e) => e == MazeError::MalformedGrid && !readable(lines_of(text@)),
            },
    {
        let rows = lines(text);
        Self::from_rows(&rows)
    }
}

} // verus!

verus! {

/// Order in which moves are offered: east, west, north, south.
pub open spec fn option_rank(d: Direction) -> int {
    match d {
        Direction::East => 0,
        Direction::West => 1,
        Direction::North => 2,
        Direction::South => 3,
    }
}

impl Maze {
    /// The moves out of `pos` for a walker facing `dir`: each open neighbour, the facing
    /// that reaches it, and the cost of the step, east first, then west, north and south.
    pub fn next_options(&self, pos: Cell, dir: Direction) -> (r: Vec<(Cell, Direction, u64)>)
        requires
            self.wf(),
        ensures
            forall|j: int|
                0 <= j < r@.len() ==> {
                    let (t, nd, w) = #[trigger] r@[j];
                    &&& self.is_move((pos.row as int, pos.col as int, dir), (t.row as int, t.col as int, nd))
                    &&& w == step_cost_of(dir, nd)
                },
            forall|nd: Direction|
                self.open_cell(pos.row + row_delta(nd), pos.col + col_delta(nd)) ==> exists|j: int|
                    0 <= j < r@.len() && (#[trigger] r@[j]).1 == nd,
            forall|i: int, j: int| 0 <= i < j < r@.len() ==> option_rank(r@[i].1) < option_rank(r@[j].1),
    {
        let mut out: Vec<(Cell, Direction, u64)> = Vec::new();
        self.push_option(&mut out, pos, dir, Direction::East);
        self.push_option(&mut out, pos, dir, Direction::West);
        self.push_option(&mut out, pos, dir, Direction::North);
        self.push_option(&mut out, pos, dir, Direction::South);
        proof {
            assert forall|nd: Direction|
                self.open_cell(pos.row + row_delta(nd), pos.col + col_delta(nd)) implies exists|j: int|
                    0 <= j < out@.len() && (#[trigger] out@[j]).1 == nd by {
                match nd {
                    Direction::North => {},
                    Direction::East => {},
                    Direction::South => {},
                    Direction::West => {},
                }
            }
        }
        out
    }

    /// Appends the move facing `nd`, if its target is open.
    fn push_option(&self, out: &mut Vec<(Cell, Direction, u64)>, pos: Cell, dir: Direction, nd: Direction)
        requires
            self.wf(),
            forall|j: int| 0 <= j < old(out)@.len() ==> option_rank(old(out)@[j].1) < option_rank(nd),
        ensures
            if self.open_cell(pos.row + row_delta(nd), pos.col + col_delta(nd)) {
                &&& final(out)@.len() == old(out)@.len() + 1
                &&& final(out)@.drop_last() == old(out)@
                &&& final(out)@.last().1 == nd
                &&& final(out)@.last().0.row == pos.row + row_delta(nd)
                &&& final(out)@.last().0.col == pos.col + col_delta(nd)
                &&& final(out)@.last().2 == step_cost_of(dir, nd)
            } else {
                final(out)@ == old(out)@
            },
    {
        if let Some(t) = self.step_target(pos.row, pos.col, nd) {
            if !self.is_wall(t) {
                out.push((t, nd, step_cost(dir, nd)));
                proof {
                    assert(out@.drop_last() =~= old(out)@);
                }
            }
        }
    }
}

/// How many entries of `s` are set is at least two when two distinct entries are.
proof fn lemma_count_marked_two(s: Seq<bool>, i: int, j: int)
    requires
        0 <= i < s.len(),
        0 <= j < s.len(),
        i != j,
        s[i],
        s[j],
    ensures
        count_marked(s) >= 2,
    decreases s.len(),
{
    let t = s.drop_last();
    if i == s.len() - 1 {
        lemma_count_marked_one(t, j);
    } else if j == s.len() - 1 {
        lemma_count_marked_one(t, i);
    } else {
        lemma_count_marked_two(t, i, j);
    }
}

proof fn lemma_count_marked_one(s: Seq<bool>, i: int)
    requires
        0 <= i < s.len(),
        s[i],
    ensures
        count_marked(s) >= 1,
    decreases s.len(),
{
    if i < s.len() - 1 {
        lemma_count_marked_one(s.drop_last(), i);
    }
}

proof fn lemma_count_marked_all(n: nat)
    ensures
        count_marked(Seq::new(n, |i: int| true)) == n,
    decreases n,
{
    if n > 0 {
        assert(Seq::new(n, |i: int| true).drop_last() =~= Seq::new((n - 1) as nat, |i: int| true));
        lemma_count_marked_all((n - 1) as nat);
    }
}

/// Whenever some route exists, its first and last cells lie on a cheapest route, so at
/// least two cells are counted: the start and the end.
pub proof fn lemma_optimal_tiles_at_least_two(m: &Maze, k: nat)
    requires
        m.wf(),
        m.is_min_cost(k),
    ensures
        count_marked(m.optimal_mask()) >= 2,
{
    let p = choose|p: Seq<State>| #[trigger] m.is_route(p) && walk_cost(p) == k;
    let w = m.width as int;
    let (sr, sc) = (m.start.row as int, m.start.col as int);
    let (er, ec) = (m.end.row as int, m.end.col as int);
    let n = p.len() - 1;
    assert(m.is_route(p) && m.is_min_cost(walk_cost(p)) && 0 <= 0 < p.len() && p[0].0 == sr && p[0].1 == sc);
    assert(m.is_route(p) && m.is_min_cost(walk_cost(p)) && 0 <= n < p.len() && p[n].0 == er && p[n].1 == ec);
    lemma_cell_index(w, m.height as int, sr, sc);
    lemma_cell_index(w, m.height as int, er, ec);
    lemma_cell_index_unique(w, sr, sc);
    lemma_cell_index_unique(w, er, ec);
    let mask = m.optimal_mask();
    assert(mask[m.cell_index(sr, sc)]);
    assert(mask[m.cell_index(er, ec)]);
    lemma_count_marked_two(mask, m.cell_index(sr, sc), m.cell_index(er, ec));
}

impl Maze {
    /// A walk never costs less than how far east it ends of where it began.
    pub proof fn lemma_cost_covers_columns(&self, p: Seq<State>)
        requires
            self.is_walk(p),
        ensures
            walk_cost(p) >= p.last().1 - p[0].1,
        decreases p.len(),
    {
        if p.len() > 1 {
            let q = p.drop_first();
            assert(self.step_at(p, 0));
            assert forall|i: int| 0 <= i < q.len() - 1 implies #[trigger] self.step_at(q, i) by {
                assert(self.step_at(p, i + 1));
            }
            self.lemma_cost_covers_columns(q);
        }
    }
}

/// A walk that faces east throughout costs one point per step.
proof fn lemma_eastward_cost(p: Seq<State>)
    requires
        forall|i: int| 0 <= i < p.len() ==> (#[trigger] p[i]).2 == Direction::East,
    ensures
        p.len() >= 1 ==> walk_cost(p) == p.len() - 1,
    decreases p.len(),
{
    if p.len() > 1 {
        let q = p.drop_first();
        assert(p[0].2 == Direction::East && p[1].2 == Direction::East);
        lemma_eastward_cost(q);
    }
}

/// In a single open row with the start at its west end and the end at its east end, the
/// cheapest route walks straight east: it costs one less than the row's length, and every
/// cell of the row lies on a cheapest route.
pub proof fn lemma_straight_corridor(m: &Maze)
    requires
        m.wf(),
        m.height == 1,
        forall|i: int| 0 <= i < m.width ==> !#[trigger] m.walls@[i],
        m.start == (Cell { row: 0, col: 0 }),
        m.end == (Cell { row: 0, col: (m.width - 1) as usize }),
    ensures
        m.is_min_cost((m.width - 1) as nat),
        count_marked(m.optimal_mask()) == m.width,
{
    let w = m.width as int;
    let p = Seq::new(m.width as nat, |i: int| (0int, i, Direction::East));
    assert forall|i: int| 0 <= i < p.len() - 1 implies #[trigger] m.step_at(p, i) by {
        assert(m.cell_index(0, i + 1) == i + 1);
        assert(!m.walls@[i + 1]);
    }
    assert(m.cell_index(0, 0) == 0);
    assert(!m.walls@[0]);
    lemma_eastward_cost(p);
    assert(m.is_route(p));
    assert forall|q: Seq<State>| #[trigger] m.is_route(q) implies (w - 1) as nat <= walk_cost(q) by {
        m.lemma_cost_covers_columns(q);
    }
    assert(m.is_min_cost((w - 1) as nat));
    assert(m.optimal_mask() =~= Seq::new(m.width as nat, |i: int| true)) by {
        assert forall|i: int| 0 <= i < w implies #[trigger] m.optimal_mask()[i] by {
            lemma_cell_index_unique(w, 0, i);
            assert(m.is_route(p) && m.is_min_cost(walk_cost(p)) && 0 <= i < p.len() && p[i].0 == 0 && p[i].1 == i);
        }
    }
    lemma_count_marked_all(m.width as nat);
}

} // verus!
