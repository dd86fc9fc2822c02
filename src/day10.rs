//! Hiking trails on a topographic map.
use vstd::prelude::*;
use crate::text::{lines, lines_of, rows_view};

verus! {

/// A grid location.
#[derive(Debug, Hash, PartialEq, Eq)]
pub struct Point {
    pub x: i32,
    pub y: i32,
}

impl Point {
    /// A copy of the point.
    pub fn clone(&self) -> (r: Point)
        ensures
            r.x == self.x && r.y == self.y,
    {
        Point { x: self.x, y: self.y }
    }
}

} // verus!

verus! {

/// A height map and the positions of height zero.
pub struct TopoMap {
    pub map: Vec<Vec<u32>>,
    pub trailheads: Vec<Point>,
}

pub open spec fn points_view(v: Seq<Point>) -> Seq<(int, int)> {
    v.map_values(|p: Point| (p.x as int, p.y as int))
}

impl TopoMap {
    pub open spec fn width(&self) -> int {
        self.map@[0]@.len() as int
    }

    pub open spec fn height_rows(&self) -> int {
        self.map@.len() as int
    }

    /// Non-empty, rectangular, small enough for `i32` coordinates, heights zero to nine.
    pub open spec fn wf(&self) -> bool {
        &&& self.map@.len() > 0
        &&& self.map@.len() < i32::MAX
        &&& self.width() < i32::MAX
        &&& forall|j: int| 0 <= j < self.map@.len() ==> (#[trigger] self.map@[j])@.len() == self.width()
        &&& forall|j: int, i: int|
            0 <= j < self.map@.len() && 0 <= i < self.width() ==> #[trigger] self.map@[j]@[i] <= 9
    }

    pub open spec fn inside(&self, x: int, y: int) -> bool {
        0 <= x < self.width() && 0 <= y < self.height_rows()
    }

    pub open spec fn level(&self, x: int, y: int) -> int {
        self.map@[y]@[x] as int
    }

    /// A step from `(x0, y0)` to `(x1, y1)` climbs exactly one level.
    pub open spec fn climbs(&self, x0: int, y0: int, x1: int, y1: int) -> bool {
        self.inside(x0, y0) && self.inside(x1, y1) && self.level(x1, y1) == self.level(x0, y0) + 1
    }

    /// Number of hiking trails from `(x, y)`: paths that climb one level per step to height nine.
    pub open spec fn trail_count(&self, x: int, y: int) -> nat
        decreases 9 - self.level(x, y),
    {
        if !self.inside(x, y) {
            0
        } else if self.level(x, y) >= 9 {
            if self.level(x, y) == 9 {
                1
            } else {
                0
            }
        } else {
            (if self.climbs(x, y, x + 1, y) {
                self.trail_count(x + 1, y)
            } else {
                0
            }) + (if self.climbs(x, y, x - 1, y) {
                self.trail_count(x - 1, y)
            } else {
                0
            }) + (if self.climbs(x, y, x, y - 1) {
                self.trail_count(x, y - 1)
            } else {
                0
            }) + (if self.climbs(x, y, x, y + 1) {
                self.trail_count(x, y + 1)
            } else {
                0
            })
        }
    }

    /// The height-nine positions that trails from `(x, y)` reach.
    pub open spec fn summits(&self, x: int, y: int) -> Set<(int, int)>
        decreases 9 - self.level(x, y),
    {
        if !self.inside(x, y) {
            Set::empty()
        } else if self.level(x, y) >= 9 {
            if self.level(x, y) == 9 {
                set![(x, y)]
            } else {
                Set::empty()
            }
        } else {
            (if self.climbs(x, y, x + 1, y) {
                self.summits(x + 1, y)
            } else {
                Set::empty()
            }) + (if self.climbs(x, y, x - 1, y) {
                self.summits(x - 1, y)
            } else {
                Set::empty()
            }) + (if self.climbs(x, y, x, y - 1) {
                self.summits(x, y - 1)
            } else {
                Set::empty()
            }) + (if self.climbs(x, y, x, y + 1) {
                self.summits(x, y + 1)
            } else {
                Set::empty()
            })
        }
    }

    /// Whether the point lies on the map.
    pub fn in_bounds(&self, point: &Point) -> (r: bool)
        requires
            self.wf(),
        ensures
            r == self.inside(point.x as int, point.y as int),
    {
        point.x >= 0 && (point.x as usize) < self.map[0].len() && point.y >= 0 && (point.y as usize)
            < self.map.len()
    }

    /// The height at a point on the map.
    pub fn lookup(&self, point: &Point) -> (r: u32)
        requires
            self.wf(),
            self.inside(point.x as int, point.y as int),
        ensures
            r == self.level(point.x as int, point.y as int),
    {
        let row = &self.map[point.y as usize];
        assert(row@.len() == self.width());
        row[point.x as usize]
    }

    /// Whether stepping from `point0` to `point1` climbs exactly one level.
    pub fn passable(&self, point0: &Point, point1: &Point) -> (r: bool)
        requires
            self.wf(),
            self.inside(point0.x as int, point0.y as int),
            self.inside(point1.x as int, point1.y as int),
        ensures
            r == self.climbs(point0.x as int, point0.y as int, point1.x as int, point1.y as int),
    {
        self.lookup(point1) as u64 == self.lookup(point0) as u64 + 1
    }

    /// `(x, y)` as a one-element list if it lies on the map, else nothing.
    pub open spec fn if_inside(&self, x: int, y: int) -> Seq<(int, int)> {
        if self.inside(x, y) {
            seq![(x, y)]
        } else {
            Seq::empty()
        }
    }

    /// The neighbours of `(x, y)` on the map: east, west, north, south.
    pub open spec fn neighbours(&self, x: int, y: int) -> Seq<(int, int)> {
        self.if_inside(x + 1, y) + self.if_inside(x - 1, y) + self.if_inside(x, y - 1) + self.if_inside(x, y + 1)
    }

    fn push_if_inside(&self, out: &mut Vec<Point>, p: Point)
        requires
            self.wf(),
        ensures
            points_view(final(out)@) == points_view(old(out)@) + self.if_inside(p.x as int, p.y as int),
    {
        if self.in_bounds(&p) {
            let ghost before = out@;
            out.push(p);
            assert(points_view(out@) =~= points_view(before) + self.if_inside(p.x as int, p.y as int));
        } else {
            assert(points_view(out@) =~= points_view(out@) + self.if_inside(p.x as int, p.y as int));
        }
    }

    /// The neighbours of `start` that lie on the map: east, west, north, south.
    pub fn get_neighbors(&self, start: &Point) -> (r: Vec<Point>)
        requires
            self.wf(),
            self.inside(start.x as int, start.y as int),
        ensures
            points_view(r@) == self.neighbours(start.x as int, start.y as int),
    {
        let mut out: Vec<Point> = Vec::new();
        self.push_if_inside(&mut out, Point { x: start.x + 1, y: start.y });
        self.push_if_inside(&mut out, Point { x: start.x - 1, y: start.y });
        self.push_if_inside(&mut out, Point { x: start.x, y: start.y - 1 });
        self.push_if_inside(&mut out, Point { x: start.x, y: start.y + 1 });
        assert(points_view(out@) =~= self.neighbours(start.x as int, start.y as int));
        out
    }
}


/// Four to the power `k`.
pub open spec fn pow4(k: nat) -> nat
    decreases k,
{
    if k == 0 {
        1
    } else {
        4 * pow4((k - 1) as nat)
    }
}

impl TopoMap {
    /// A position of height `h` starts at most four to the power `9 - h` trails.
    pub proof fn lemma_trail_bound(&self, x: int, y: int)
        requires
            self.wf(),
            self.inside(x, y),
        ensures
            self.trail_count(x, y) <= pow4((9 - self.level(x, y)) as nat),
        decreases 9 - self.level(x, y),
    {
        let h = self.level(x, y);
        assert(h <= 9);
        if h < 9 {
            let b = pow4((8 - h) as nat);
            assert(pow4((9 - h) as nat) == 4 * b);
            if self.climbs(x, y, x + 1, y) {
                self.lemma_trail_bound(x + 1, y);
            }
            if self.climbs(x, y, x - 1, y) {
                self.lemma_trail_bound(x - 1, y);
            }
            if self.climbs(x, y, x, y - 1) {
                self.lemma_trail_bound(x, y - 1);
            }
            if self.climbs(x, y, x, y + 1) {
                self.lemma_trail_bound(x, y + 1);
            }
        }
    }

    /// Trails through the step from `from` to `to`, if that step climbs one level.
    fn trails_via(&self, from: &Point, to: Point) -> (r: usize)
        requires
            self.wf(),
            self.inside(from.x as int, from.y as int),
            self.level(from.x as int, from.y as int) < 9,
        ensures
            r == if self.climbs(from.x as int, from.y as int, to.x as int, to.y as int) {
                self.trail_count(to.x as int, to.y as int)
            } else {
                0
            },
            r <= pow4((8 - self.level(from.x as int, from.y as int)) as nat),
        decreases 9 - self.level(from.x as int, from.y as int), 1int,
    {
        if self.in_bounds(&to) && self.passable(from, &to) {
            proof {
                self.lemma_trail_bound(to.x as int, to.y as int);
            }
            self.explore_part2(&to)
        } else {
            0
        }
    }

    /// Number of trails from `start` to height nine.
    pub fn explore_part2(&self, start: &Point) -> (r: usize)
        requires
            self.wf(),
        ensures
            r == self.trail_count(start.x as int, start.y as int),
        decreases 10 - self.level(start.x as int, start.y as int), 0int,
    {
        if !self.in_bounds(start) {
            return 0;
        }
        let h = self.lookup(start);
        if h >= 9 {
            return if h == 9 {
                1
            } else {
                0
            };
        }
        proof {
            let k = (8 - h) as nat;
            assert(pow4(k + 1) == 4 * pow4(k));
            assert(pow4(k + 1) <= pow4(9)) by {
                lemma_pow4_mono(k + 1, 9);
            }
            reveal_with_fuel(pow4, 10);
            assert(pow4(9) == 262144);
        }
        let a = self.trails_via(start, Point { x: start.x + 1, y: start.y });
        let b = self.trails_via(start, Point { x: start.x - 1, y: start.y });
        let c = self.trails_via(start, Point { x: start.x, y: start.y - 1 });
        let d = self.trails_via(start, Point { x: start.x, y: start.y + 1 });
        a + b + c + d
    }
}

proof fn lemma_pow4_mono(a: nat, b: nat)
    requires
        a <= b,
    ensures
        pow4(a) <= pow4(b),
    decreases b,
{
    if a < b {
        lemma_pow4_mono(a, (b - 1) as nat);
    }
}


/// Sum of the trail counts of the first `n` trailheads.
pub open spec fn rating_total(m: &TopoMap, n: int) -> nat
    decreases n,
{
    if n <= 0 {
        0
    } else {
        rating_total(m, n - 1) + m.trail_count(m.trailheads@[n - 1].x as int, m.trailheads@[n - 1].y as int)
    }
}

/// Sum of the numbers of summits reached from the first `n` trailheads.
pub open spec fn score_total(m: &TopoMap, n: int) -> nat
    decreases n,
{
    if n <= 0 {
        0
    } else {
        score_total(m, n - 1) + m.summits(m.trailheads@[n - 1].x as int, m.trailheads@[n - 1].y as int).len()
    }
}

proof fn lemma_rating_grows(m: &TopoMap, i: int, n: int)
    requires
        0 <= i <= n,
    ensures
        rating_total(m, i) <= rating_total(m, n),
    decreases n - i,
{
    if i < n {
        lemma_rating_grows(m, i, n - 1);
    }
}

proof fn lemma_score_grows(m: &TopoMap, i: int, n: int)
    requires
        0 <= i <= n,
    ensures
        score_total(m, i) <= score_total(m, n),
    decreases n - i,
{
    if i < n {
        lemma_score_grows(m, i, n - 1);
    }
}

/// Adds `p` to a list of distinct points unless it is already there.
fn insert_point(acc: &mut Vec<Point>, p: Point)
    requires
        points_view(old(acc)@).no_duplicates(),
    ensures
        points_view(final(acc)@).no_duplicates(),
        points_view(final(acc)@).to_set() == points_view(old(acc)@).to_set().insert((p.x as int, p.y as int)),
{
    let ghost v = points_view(acc@);
    let mut i: usize = 0;
    while i < acc.len()
        invariant
            v == points_view(acc@),
            v == points_view(old(acc)@),
            v.no_duplicates(),
            i <= acc@.len(),
            forall|j: int| 0 <= j < i ==> v[j] != (p.x as int, p.y as int),
        decreases acc@.len() - i,
    {
        if acc[i].x == p.x && acc[i].y == p.y {
            assert(v[i as int] == (p.x as int, p.y as int));
            assert(v.to_set().insert((p.x as int, p.y as int)) =~= v.to_set());
            return;
        }
        i = i + 1;
    }
    let ghost q = (p.x as int, p.y as int);
    acc.push(p);
    assert(points_view(acc@) =~= v.push(q));
    assert(v.push(q).to_set() =~= v.to_set().insert(q)) by {
        assert forall|a: (int, int)| v.push(q).contains(a) <==> v.to_set().insert(q).contains(a) by {
            if v.push(q).contains(a) {
                let k = choose|k: int| 0 <= k < v.push(q).len() && v.push(q)[k] == a;
                if k < v.len() {
                    assert(v.contains(a));
                }
            }
            if v.contains(a) {
                let k = choose|k: int| 0 <= k < v.len() && v[k] == a;
                assert(v.push(q)[k] == a);
            }
            if a == q {
                assert(v.push(q)[v.len() as int] == q);
            }
        }
    }
}

impl TopoMap {
    fn summits_via(&self, from: &Point, to: Point, acc: &mut Vec<Point>)
        requires
            self.wf(),
            self.inside(from.x as int, from.y as int),
            self.level(from.x as int, from.y as int) < 9,
            points_view(old(acc)@).no_duplicates(),
        ensures
            points_view(final(acc)@).no_duplicates(),
            points_view(final(acc)@).to_set() == points_view(old(acc)@).to_set() + if self.climbs(
                from.x as int,
                from.y as int,
                to.x as int,
                to.y as int,
            ) {
                self.summits(to.x as int, to.y as int)
            } else {
                Set::empty()
            },
        decreases 9 - self.level(from.x as int, from.y as int), 1int,
    {
        if self.in_bounds(&to) && self.passable(from, &to) {
            self.collect_summits(&to, acc);
        } else {
            assert(points_view(acc@).to_set() + Set::empty() =~= points_view(acc@).to_set());
        }
    }

    /// Adds to `acc` the summits that trails from `start` reach.
    fn collect_summits(&self, start: &Point, acc: &mut Vec<Point>)
        requires
            self.wf(),
            points_view(old(acc)@).no_duplicates(),
        ensures
            points_view(final(acc)@).no_duplicates(),
            points_view(final(acc)@).to_set() == points_view(old(acc)@).to_set() + self.summits(
                start.x as int,
                start.y as int,
            ),
        decreases 10 - self.level(start.x as int, start.y as int), 0int,
    {
        let ghost s0 = points_view(acc@).to_set();
        if !self.in_bounds(start) {
            assert(s0 + Set::empty() =~= s0);
            return;
        }
        let h = self.lookup(start);
        if h >= 9 {
            if h == 9 {
                insert_point(acc, Point { x: start.x, y: start.y });
                assert(s0.insert((start.x as int, start.y as int)) =~= s0 + set![(start.x as int, start.y as int)]);
            } else {
                assert(s0 + Set::empty() =~= s0);
            }
            return;
        }
        self.summits_via(start, Point { x: start.x + 1, y: start.y }, acc);
        self.summits_via(start, Point { x: start.x - 1, y: start.y }, acc);
        self.summits_via(start, Point { x: start.x, y: start.y - 1 }, acc);
        self.summits_via(start, Point { x: start.x, y: start.y + 1 }, acc);
        proof {
            let (x, y) = (start.x as int, start.y as int);
            let e = |c: bool, t: Set<(int, int)>| if c { t } else { Set::<(int, int)>::empty() };
            let a = e(self.climbs(x, y, x + 1, y), self.summits(x + 1, y));
            let b = e(self.climbs(x, y, x - 1, y), self.summits(x - 1, y));
            let c = e(self.climbs(x, y, x, y - 1), self.summits(x, y - 1));
            let d = e(self.climbs(x, y, x, y + 1), self.summits(x, y + 1));
            assert(s0 + a + b + c + d =~= s0 + (a + b + c + d));
        }
    }

    /// The summits that trails from `start` reach, each once.
    pub fn explore(&self, start: &Point) -> (r: Vec<Point>)
        requires
            self.wf(),
        ensures
            points_view(r@).no_duplicates(),
            points_view(r@).to_set() == self.summits(start.x as int, start.y as int),
    {
        let mut acc: Vec<Point> = Vec::new();
        assert(points_view(acc@) =~= Seq::<(int, int)>::empty());
        self.collect_summits(start, &mut acc);
        assert(Set::<(int, int)>::empty() + self.summits(start.x as int, start.y as int) =~= self.summits(start.x as int, start.y as int));
        acc
    }

    /// Sum over trailheads of how many summits each reaches.
    pub fn part1(&self) -> (r: usize)
        requires
            self.wf(),
            score_total(self, self.trailheads@.len() as int) <= usize::MAX,
        ensures
            r == score_total(self, self.trailheads@.len() as int),
    {
        let mut sum: usize = 0;
        let mut i: usize = 0;
        while i < self.trailheads.len()
            invariant
                self.wf(),
                i <= self.trailheads@.len(),
                score_total(self, self.trailheads@.len() as int) <= usize::MAX,
                sum == score_total(self, i as int),
            decreases self.trailheads@.len() - i,
        {
            let p = &self.trailheads[i];
            let found = self.explore(p);
            proof {
                points_view(found@).unique_seq_to_set();
                lemma_score_grows(self, i + 1, self.trailheads@.len() as int);
            }
            sum = sum + found.len();
            i = i + 1;
        }
        sum
    }

    /// Sum over trailheads of how many trails start there.
    pub fn part2(&self) -> (r: usize)
        requires
            self.wf(),
            rating_total(self, self.trailheads@.len() as int) <= usize::MAX,
        ensures
            r == rating_total(self, self.trailheads@.len() as int),
    {
        let mut sum: usize = 0;
        let mut i: usize = 0;
        while i < self.trailheads.len()
            invariant
                self.wf(),
                i <= self.trailheads@.len(),
                rating_total(self, self.trailheads@.len() as int) <= usize::MAX,
                sum == rating_total(self, i as int),
            decreases self.trailheads@.len() - i,
        {
            let p = &self.trailheads[i];
            let n = self.explore_part2(p);
            proof {
                lemma_rating_grows(self, i + 1, self.trailheads@.len() as int);
            }
            sum = sum + n;
            i = i + 1;
        }
        sum
    }
}


/// Every row is as long as the first, and every character is a digit.
pub open spec fn digit_grid(rows: Seq<Seq<char>>) -> bool {
    &&& rows.len() > 0
    &&& rows.len() < i32::MAX
    &&& rows[0].len() < i32::MAX
    &&& forall|j: int| 0 <= j < rows.len() ==> (#[trigger] rows[j]).len() == rows[0].len()
    &&& forall|j: int, i: int| 0 <= j < rows.len() && 0 <= i < rows[j].len() ==> '0' <= #[trigger] rows[j][i] <= '9'
}

impl TopoMap {
    /// Reads a height map, one row of digits per non-blank line, and lists the height-zero
    /// positions in reading order.
    pub fn parse(text: &str) -> (r: Option<TopoMap>)
        ensures
            match r {
                Some(m) => digit_grid(lines_of(text@)) && m.wf() && m.map@.len() == lines_of(text@).len()
                    && (forall|j: int, i: int|
                    0 <= j < m.map@.len() && 0 <= i < m.width() ==> #[trigger] m.map@[j]@[i] == lines_of(text@)[j][i] as u32 - '0' as u32)
                    && (forall|k: int| 0 <= k < m.trailheads@.len() ==> m.inside(#[trigger] m.trailheads@[k].x as int, m.trailheads@[k].y as int)
                        && m.level(m.trailheads@[k].x as int, m.trailheads@[k].y as int) == 0)
                    && (forall|i: int, j: int| #[trigger] m.inside(i, j) && m.level(i, j) == 0 ==> exists|k: int|
                        0 <= k < m.trailheads@.len() && m.trailheads@[k] == (Point { x: i as i32, y: j as i32 })),
                None => !digit_grid(lines_of(text@)),
            },
    {
        let rows = lines(text);
        let ghost g = rows_view(rows@);
        assert(g == lines_of(text@));
        let h = rows.len();
        if h == 0 || h >= 0x7fff_ffff {
            return None;
        }
        let w = rows[0].len();
        assert(g[0] == rows@[0]@);
        if w >= 0x7fff_ffff {
            return None;
        }
        let mut map: Vec<Vec<u32>> = Vec::new();
        let mut heads: Vec<Point> = Vec::new();
        let mut y: usize = 0;
        while y < h
            invariant
                g == rows_view(rows@),
                g == lines_of(text@),
                h == g.len(),
                0 < h < 0x7fff_ffff,
                w == g[0].len(),
                w < 0x7fff_ffff,
                y <= h,
                map@.len() == y,
                forall|j: int| 0 <= j < y ==> (#[trigger] g[j]).len() == w,
                forall|j: int| 0 <= j < y ==> (#[trigger] map@[j])@.len() == w,
                forall|j: int, i: int| 0 <= j < y && 0 <= i < w ==> '0' <= #[trigger] g[j][i] <= '9',
                forall|j: int, i: int| 0 <= j < y && 0 <= i < w ==> #[trigger] map@[j]@[i] == g[j][i] as u32 - '0' as u32,
                forall|k: int| 0 <= k < heads@.len() ==> 0 <= (#[trigger] heads@[k]).y < y && 0 <= heads@[k].x < w && map@[heads@[k].y as int]@[heads@[k].x as int] == 0,
                forall|i: int, j: int| 0 <= j < y && 0 <= i < w && #[trigger] map@[j]@[i] == 0 ==> exists|k: int|
                    0 <= k < heads@.len() && heads@[k] == (Point { x: i as i32, y: j as i32 }),
            decreases h - y,
        {
            let row = &rows[y];
            assert(g[y as int] == row@);
            if row.len() != w {
                assert(g[y as int].len() != g[0].len());
                return None;
            }
            let mut line: Vec<u32> = Vec::new();
            let mut x: usize = 0;
            let ghost heads0 = heads@;
            while x < w
                invariant
                    g == lines_of(text@),
                    y < g.len(),
                    g[0].len() == w,
                    g[y as int] == row@,
                    row@.len() == w,
                    w < 0x7fff_ffff,
                    y < 0x7fff_ffff,
                    x <= w,
                    line@.len() == x,
                    forall|i: int| 0 <= i < x ==> '0' <= #[trigger] row@[i] <= '9',
                    forall|i: int| 0 <= i < x ==> #[trigger] line@[i] == row@[i] as u32 - '0' as u32,
                    heads0.len() <= heads@.len(),
                    forall|k: int| 0 <= k < heads0.len() ==> #[trigger] heads@[k] == heads0[k],
                    forall|k: int| heads0.len() <= k < heads@.len() ==> (#[trigger] heads@[k]).y == y && 0 <= heads@[k].x < x && line@[heads@[k].x as int] == 0,
                    forall|i: int| 0 <= i < x && #[trigger] line@[i] == 0 ==> exists|k: int|
                        heads0.len() <= k < heads@.len() && heads@[k] == (Point { x: i as i32, y: y as i32 }),
                decreases w - x,
            {
                let c = row[x];
                if !('0' <= c && c <= '9') {
                    assert(!('0' <= g[y as int][x as int] <= '9'));
                    return None;
                }
                let d = c as u32 - '0' as u32;
                let ghost hb = heads@;
                line.push(d);
                if d == 0 {
                    heads.push(Point { x: x as i32, y: y as i32 });
                }
                proof {
                    assert forall|i: int| 0 <= i < x + 1 && #[trigger] line@[i] == 0 implies exists|k: int|
                        heads0.len() <= k < heads@.len() && heads@[k] == (Point { x: i as i32, y: y as i32 }) by {
                        if i < x {
                            let k = choose|k: int| heads0.len() <= k < hb.len() && hb[k] == (Point { x: i as i32, y: y as i32 });
                            assert(heads@[k] == hb[k]);
                        } else {
                            assert(heads@[hb.len() as int] == (Point { x: i as i32, y: y as i32 }));
                        }
                    }
                }
                x = x + 1;
            }
            let ghost mb = map@;
            map.push(line);
            proof {
                assert forall|i: int, j: int| 0 <= j < y + 1 && 0 <= i < w && #[trigger] map@[j]@[i] == 0 implies exists|k: int|
                    0 <= k < heads@.len() && heads@[k] == (Point { x: i as i32, y: j as i32 }) by {
                    if j < y {
                        assert(map@[j] == mb[j]);
                        let k = choose|k: int| 0 <= k < heads0.len() && heads0[k] == (Point { x: i as i32, y: j as i32 });
                        assert(heads@[k] == heads0[k]);
                    } else {
                        assert(map@[j]@[i] == line@[i]);
                    }
                }
                assert forall|k: int| 0 <= k < heads@.len() implies 0 <= (#[trigger] heads@[k]).y < y + 1 && 0 <= heads@[k].x < w && map@[heads@[k].y as int]@[heads@[k].x as int] == 0 by {
                    if k < heads0.len() {
                        assert(heads@[k] == heads0[k]);
                    }
                }
            }
            y = y + 1;
        }
        let m = TopoMap { map, trailheads: heads };
        Some(m)
    }
}

} // verus!
