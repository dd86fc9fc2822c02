//! Garden plots: the area and perimeter of a region.
use vstd::prelude::*;

verus! {

/// A grid location.
#[derive(Debug, Clone, Copy, PartialEq, Eq, Structural)]
pub struct Point {
    pub x: i32,
    pub y: i32,
}

/// The two points share an edge.
pub open spec fn touching(a: Point, b: Point) -> bool {
    (a.y == b.y && (a.x - b.x == 1 || b.x - a.x == 1)) || (a.x == b.x && (a.y - b.y == 1 || b.y - a.y == 1))
}

impl Point {
    /// Whether `other` shares an edge with this point.
    pub fn adjacent(&self, other: &Point) -> (r: bool)
        ensures
            r == touching(*self, *other),
    {
        if other.y == self.y {
            return (other.x as i64 - self.x as i64) == 1 || (self.x as i64 - other.x as i64) == 1;
        }
        if other.x == self.x {
            return (other.y as i64 - self.y as i64) == 1 || (self.y as i64 - other.y as i64) == 1;
        }
        false
    }
}

/// Number of plots in the region.
pub fn area(region: &Vec<Point>) -> (r: usize)
    ensures
        r == region@.len(),
{
    region.len()
}

/// Pairs `(i, j)` with `i < j`, `i` below `n`, whose points touch.
pub open spec fn touching_pairs(s: Seq<Point>, n: int) -> nat
    decreases n,
{
    if n <= 0 {
        0
    } else {
        touching_pairs(s, n - 1) + touching_after(s, n - 1, s.len() as int)
    }
}

/// Points after `i` and before `m` that touch point `i`.
pub open spec fn touching_after(s: Seq<Point>, i: int, m: int) -> nat
    decreases m - i,
{
    if m <= i + 1 {
        0
    } else {
        touching_after(s, i, m - 1) + if touching(s[i], s[m - 1]) {
            1nat
        } else {
            0nat
        }
    }
}

/// No plot is listed twice.
pub open spec fn distinct(s: Seq<Point>) -> bool {
    forall|i: int, j: int| 0 <= i < j < s.len() ==> s[i] != s[j]
}

proof fn lemma_touching_pairs_grow(s: Seq<Point>, i: int, n: int)
    requires
        0 <= i <= n,
    ensures
        touching_pairs(s, i) <= touching_pairs(s, n),
    decreases n - i,
{
    if i < n {
        lemma_touching_pairs_grow(s, i, n - 1);
    }
}

/// Each plot contributes its four edges, less one for every edge it shares with another
/// plot of the region (each shared edge is counted from both sides).
pub fn perimeter(region: &Vec<Point>) -> (r: usize)
    requires
        4 * region@.len() <= usize::MAX,
        4 * region@.len() >= 2 * touching_pairs(region@, region@.len() as int),
    ensures
        r == 4 * region@.len() - 2 * touching_pairs(region@, region@.len() as int),
{
    let n = region.len();
    let mut pairs: usize = 0;
    let mut i: usize = 0;
    while i < n
        invariant
            n == region@.len(),
            4 * n <= usize::MAX,
            i <= n,
            pairs == touching_pairs(region@, i as int),
            4 * n >= 2 * touching_pairs(region@, n as int),
        decreases n - i,
    {
        let mut j: usize = i + 1;
        let mut here: usize = 0;
        while j < n
            invariant
                n == region@.len(),
                4 * n <= usize::MAX,
                i < n,
                i + 1 <= j <= n,
                pairs == touching_pairs(region@, i as int),
                4 * n >= 2 * touching_pairs(region@, n as int),
                here == touching_after(region@, i as int, j as int),
                here <= j,
            decreases n - j,
        {
            if region[i].adjacent(&region[j]) {
                here = here + 1;
            }
            j = j + 1;
        }
        proof {
            lemma_touching_pairs_grow(region@, i + 1, n as int);
            assert(touching_pairs(region@, i + 1) == pairs + here);
        }
        pairs = pairs + here;
        i = i + 1;
    }
    assert(pairs == touching_pairs(region@, n as int));
    4 * n - 2 * pairs
}

} // verus!

verus! {

/// The garden: one plant letter per plot.
#[derive(Debug)]
pub struct Garden {
    pub map: Vec<Vec<char>>,
}

impl Garden {
    /// Non-empty, rectangular, and small enough for `i32` coordinates.
    pub open spec fn wf(&self) -> bool {
        &&& self.map@.len() > 0
        &&& self.map@.len() < i32::MAX
        &&& self.map@[0]@.len() < i32::MAX
        &&& forall|j: int| 0 <= j < self.map@.len() ==> (#[trigger] self.map@[j])@.len() == self.map@[0]@.len()
    }

    pub open spec fn inside(&self, x: int, y: int) -> bool {
        0 <= x < self.map@[0]@.len() && 0 <= y < self.map@.len()
    }

    /// `(x, y)` as a one-element list if it lies in the garden, else nothing.
    pub open spec fn if_inside(&self, x: int, y: int) -> Seq<(int, int)> {
        if self.inside(x, y) {
            seq![(x, y)]
        } else {
            Seq::empty()
        }
    }

    /// Whether the point lies in the garden.
    pub fn in_bounds(&self, point: &Point) -> (r: bool)
        requires
            self.wf(),
        ensures
            r == self.inside(point.x as int, point.y as int),
    {
        point.x >= 0 && (point.x as usize) < self.map[0].len() && point.y >= 0 && (point.y as usize) < self.map.len()
    }

    /// Number of plots.
    pub fn size(&self) -> (r: usize)
        requires
            self.wf(),
            self.map@[0]@.len() * self.map@.len() <= usize::MAX,
        ensures
            r == self.map@[0]@.len() * self.map@.len(),
    {
        self.map[0].len() * self.map.len()
    }

    /// The plant on a plot.
    pub fn get(&self, point: &Point) -> (r: char)
        requires
            self.wf(),
            self.inside(point.x as int, point.y as int),
        ensures
            r == self.map@[point.y as int]@[point.x as int],
    {
        let row = &self.map[point.y as usize];
        assert(row@.len() == self.map@[0]@.len());
        row[point.x as usize]
    }

    fn push_if_inside(&self, out: &mut Vec<Point>, p: Point)
        requires
            self.wf(),
        ensures
            points_view(final(out)@) == points_view(old(out)@) + self.if_inside(p.x as int, p.y as int),
    {
        if self.in_bounds(&p) {
            let ghost before = out@;
            out.push(p);
            assert(points_view(out@) =~= points_view(before) + self.if_inside(p.x as int, p.y as int));
        } else {
            assert(points_view(out@) =~= points_view(out@) + self.if_inside(p.x as int, p.y as int));
        }
    }

    /// The plots east, west, north and south of `start`, and the one to its south-east,
    /// that lie in the garden.
    pub fn get_neighbors(&self, start: &Point) -> (r: Vec<Point>)
        requires
            self.wf(),
            self.inside(start.x as int, start.y as int),
        ensures
            points_view(r@) == self.if_inside(start.x + 1, start.y as int) + self.if_inside(start.x - 1, start.y as int)
                + self.if_inside(start.x as int, start.y - 1) + self.if_inside(start.x as int, start.y + 1)
                + self.if_inside(start.x + 1, start.y + 1),
    {
        let mut out: Vec<Point> = Vec::new();
        assert(points_view(out@) =~= Seq::<(int, int)>::empty());
        self.push_if_inside(&mut out, Point { x: start.x + 1, y: start.y });
        self.push_if_inside(&mut out, Point { x: start.x - 1, y: start.y });
        self.push_if_inside(&mut out, Point { x: start.x, y: start.y - 1 });
        self.push_if_inside(&mut out, Point { x: start.x, y: start.y + 1 });
        self.push_if_inside(&mut out, Point { x: start.x + 1, y: start.y + 1 });
        out
    }

    /// The plots east, west, north and south of `start` that lie in the garden.
    pub fn get_neighbors_nodiag(&self, start: &Point) -> (r: Vec<Point>)
        requires
            self.wf(),
            self.inside(start.x as int, start.y as int),
        ensures
            points_view(r@) == self.if_inside(start.x + 1, start.y as int) + self.if_inside(start.x - 1, start.y as int)
                + self.if_inside(start.x as int, start.y - 1) + self.if_inside(start.x as int, start.y + 1),
    {
        let mut out: Vec<Point> = Vec::new();
        assert(points_view(out@) =~= Seq::<(int, int)>::empty());
        self.push_if_inside(&mut out, Point { x: start.x + 1, y: start.y });
        self.push_if_inside(&mut out, Point { x: start.x - 1, y: start.y });
        self.push_if_inside(&mut out, Point { x: start.x, y: start.y - 1 });
        self.push_if_inside(&mut out, Point { x: start.x, y: start.y + 1 });
        out
    }

    /// The four diagonal neighbours of `start` that lie in the garden.
    pub fn get_neighbors_diag(&self, start: &Point) -> (r: Vec<Point>)
        requires
            self.wf(),
            self.inside(start.x as int, start.y as int),
        ensures
            points_view(r@) == self.if_inside(start.x + 1, start.y + 1) + self.if_inside(start.x + 1, start.y - 1)
                + self.if_inside(start.x - 1, start.y + 1) + self.if_inside(start.x - 1, start.y - 1),
    {
        let mut out: Vec<Point> = Vec::new();
        assert(points_view(out@) =~= Seq::<(int, int)>::empty());
        self.push_if_inside(&mut out, Point { x: start.x + 1, y: start.y + 1 });
        self.push_if_inside(&mut out, Point { x: start.x + 1, y: start.y - 1 });
        self.push_if_inside(&mut out, Point { x: start.x - 1, y: start.y + 1 });
        self.push_if_inside(&mut out, Point { x: start.x - 1, y: start.y - 1 });
        out
    }
}

pub open spec fn points_view(v: Seq<Point>) -> Seq<(int, int)> {
    v.map_values(|p: Point| (p.x as int, p.y as int))
}

} // verus!
