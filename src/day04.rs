//! Word search: strips of a letter grid, counts of `XMAS`, and crossed `MAS`.
use vstd::prelude::*;

verus! {

/// All rows as long as the first, which is not empty.
pub open spec fn rectangular(g: Seq<Vec<char>>) -> bool {
    &&& g.len() > 0
    &&& g[0]@.len() > 0
    &&& forall|i: int| 0 <= i < g.len() ==> #[trigger] g[i]@.len() == g[0]@.len()
}

/// `XMAS` or its reverse starts at position `i` of `w`.
pub open spec fn xmas_at(w: Seq<char>, i: int) -> bool {
    0 <= i && i + 4 <= w.len() && (w.subrange(i, i + 4) == seq!['X', 'M', 'A', 'S'] || w.subrange(i, i + 4)
        == seq!['S', 'A', 'M', 'X'])
}

/// How many positions below `n` start `XMAS` or `SAMX`.
pub open spec fn xmas_count(w: Seq<char>, n: int) -> nat
    decreases n,
{
    if n <= 0 {
        0
    } else {
        xmas_count(w, n - 1) + if xmas_at(w, n - 1) {
            1nat
        } else {
            0nat
        }
    }
}

proof fn lemma_xmas_count_bound(w: Seq<char>, n: int)
    ensures
        xmas_count(w, n) <= if n < 0 { 0 } else { n },
    decreases n,
{
    if n > 0 {
        lemma_xmas_count_bound(w, n - 1);
    }
}

/// Occurrences of `XMAS` plus occurrences of `SAMX`.
pub fn count_xmas(word: &[char]) -> (r: usize)
    ensures
        r == xmas_count(word@, word@.len() as int),
{
    let mut count: usize = 0;
    let mut i: usize = 0;
    while i < word.len()
        invariant
            i <= word@.len(),
            count == xmas_count(word@, i as int),
            count <= i,
        decreases word@.len() - i,
    {
        let mut hit = false;
        if word.len() >= 4 && i <= word.len() - 4 {
            let a = word[i];
            let b = word[i + 1];
            let c = word[i + 2];
            let d = word[i + 3];
            hit = (a == 'X' && b == 'M' && c == 'A' && d == 'S') || (a == 'S' && b == 'A' && c == 'M'
                && d == 'X');
            proof {
                let s = word@.subrange(i as int, i + 4);
                assert(s[0] == a && s[1] == b && s[2] == c && s[3] == d);
                if hit {
                    if a == 'X' {
                        assert(s =~= seq!['X', 'M', 'A', 'S']);
                    } else {
                        assert(s =~= seq!['S', 'A', 'M', 'X']);
                    }
                }
            }
        }
        if hit {
            count = count + 1;
        }
        i = i + 1;
    }
    count
}

/// Column `x`, read top to bottom.
pub fn vertical_string(x: usize, xword: &Vec<Vec<char>>) -> (r: Vec<char>)
    requires
        forall|j: int| 0 <= j < xword@.len() ==> x < (#[trigger] xword@[j])@.len(),
    ensures
        r@ == Seq::new(xword@.len(), |j: int| xword@[j]@[x as int]),
{
    let mut out: Vec<char> = Vec::new();
    let mut j: usize = 0;
    while j < xword.len()
        invariant
            j <= xword@.len(),
            forall|k: int| 0 <= k < xword@.len() ==> x < (#[trigger] xword@[k])@.len(),
            out@ == Seq::new(j as nat, |k: int| xword@[k]@[x as int]),
        decreases xword@.len() - j,
    {
        out.push(xword[j][x]);
        j = j + 1;
        assert(out@ =~= Seq::new(j as nat, |k: int| xword@[k]@[x as int]));
    }
    out
}

/// Length of the diagonal strip from column `x`, row `y`: down and right when `descend`,
/// otherwise up and right, until it leaves the grid.
pub open spec fn diag_len(x: int, y: int, descend: bool, w: int, h: int) -> int {
    let across = w - x;
    let along = if descend {
        h - y
    } else {
        y + 1
    };
    if across < along {
        across
    } else {
        along
    }
}

/// The letters of that strip.
pub open spec fn diag_spec(x: int, y: int, descend: bool, g: Seq<Vec<char>>) -> Seq<char> {
    Seq::new(
        diag_len(x, y, descend, g[0]@.len() as int, g.len() as int) as nat,
        |k: int|
            if descend {
                g[y + k]@[x + k]
            } else {
                g[y - k]@[x + k]
            },
    )
}

/// The diagonal strip from column `x`, row `y`.
pub fn diag_string(x: usize, y: usize, descend: bool, xword: &Vec<Vec<char>>) -> (r: Vec<char>)
    requires
        rectangular(xword@),
        x < xword@[0]@.len(),
        y < xword@.len(),
    ensures
        r@ == diag_spec(x as int, y as int, descend, xword@),
{
    let w = xword[0].len();
    let h = xword.len();
    let n = if descend {
        if w - x < h - y {
            w - x
        } else {
            h - y
        }
    } else {
        if w - x < y + 1 {
            w - x
        } else {
            y + 1
        }
    };
    let mut out: Vec<char> = Vec::new();
    let mut k: usize = 0;
    while k < n
        invariant
            rectangular(xword@),
            w == xword@[0]@.len(),
            h == xword@.len(),
            x < w,
            y < h,
            n == diag_len(x as int, y as int, descend, w as int, h as int),
            k <= n,
            out@ == diag_spec(x as int, y as int, descend, xword@).take(k as int),
        decreases n - k,
    {
        let row = if descend {
            y + k
        } else {
            y - k
        };
        assert(xword@[row as int]@.len() == w);
        out.push(xword[row][x + k]);
        k = k + 1;
        assert(out@ =~= diag_spec(x as int, y as int, descend, xword@).take(k as int));
    }
    assert(out@ =~= diag_spec(x as int, y as int, descend, xword@));
    out
}

/// `M` and `S` at the two ends of a diagonal, in either order.
pub open spec fn mas_pair(a: char, b: char) -> bool {
    (a == 'M' && b == 'S') || (a == 'S' && b == 'M')
}

/// Both diagonals through `(x, y)` read `MAS` one way or the other, and `(x, y)` is not on
/// the border.
pub open spec fn x_at(x: int, y: int, g: Seq<Vec<char>>) -> bool {
    &&& 0 < x < g[0]@.len() - 1
    &&& 0 < y < g.len() - 1
    &&& mas_pair(g[y - 1]@[x - 1], g[y + 1]@[x + 1])
    &&& mas_pair(g[y + 1]@[x - 1], g[y - 1]@[x + 1])
}

/// Whether the diagonals around `(x, y)` both read `MAS`.
pub fn check_for_x(x: usize, y: usize, xword: &Vec<Vec<char>>) -> (r: bool)
    requires
        rectangular(xword@),
    ensures
        r == x_at(x as int, y as int, xword@),
{
    let w = xword[0].len();
    let h = xword.len();
    if x == 0 || x >= w - 1 {
        return false;
    }
    if y == 0 || y >= h - 1 {
        return false;
    }
    assert(xword@[y - 1]@.len() == w && xword@[y + 1]@.len() == w);
    let a = xword[y - 1][x - 1];
    let b = xword[y + 1][x + 1];
    if !((a == 'M' && b == 'S') || (a == 'S' && b == 'M')) {
        return false;
    }
    let c = xword[y + 1][x - 1];
    let d = xword[y - 1][x + 1];
    (c == 'M' && d == 'S') || (c == 'S' && d == 'M')
}


/// An `A` at `(x, y)` with `MAS` on both diagonals.
pub open spec fn cross_at(g: Seq<Vec<char>>, x: int, y: int) -> bool {
    g[y]@[x] == 'A' && x_at(x, y, g)
}

/// Crosses in column `x`, rows one up to `m` (exclusive).
pub open spec fn column_crosses(g: Seq<Vec<char>>, x: int, m: int) -> nat
    decreases m,
{
    if m <= 1 {
        0
    } else {
        column_crosses(g, x, m - 1) + if cross_at(g, x, m - 1) {
            1nat
        } else {
            0nat
        }
    }
}

/// Crosses in columns one up to `n` (exclusive), away from the border rows.
pub open spec fn crosses(g: Seq<Vec<char>>, n: int) -> nat
    decreases n,
{
    if n <= 1 {
        0
    } else {
        crosses(g, n - 1) + column_crosses(g, n - 1, g.len() - 1)
    }
}

/// Number of `A` cells whose two diagonals both read `MAS`.
pub fn part2(xword: &Vec<Vec<char>>) -> (r: usize)
    requires
        rectangular(xword@),
        xword@[0]@.len() * xword@.len() <= usize::MAX,
    ensures
        r == crosses(xword@, xword@[0]@.len() - 1),
{
    let w = xword[0].len();
    let h = xword.len();
    let mut result: usize = 0;
    let mut i: usize = 1;
    while i < w - 1
        invariant
            rectangular(xword@),
            w == xword@[0]@.len(),
            h == xword@.len(),
            w * h <= usize::MAX,
            1 <= i <= w,
            i < w - 1 || i == 1 || i == w - 1,
            result == crosses(xword@, i as int),
            result <= i * h,
        decreases w - i,
    {
        let mut j: usize = 1;
        let mut here: usize = 0;
        while j < h - 1
            invariant
                rectangular(xword@),
                w == xword@[0]@.len(),
                h == xword@.len(),
                1 <= i < w - 1,
                1 <= j <= h,
                j < h - 1 || j == 1 || j == h - 1,
                here == column_crosses(xword@, i as int, j as int),
                here <= j,
            decreases h - j,
        {
            assert(xword@[j as int]@.len() == w);
            if xword[j][i] == 'A' && check_for_x(i, j, xword) {
                here = here + 1;
            }
            j = j + 1;
        }
        proof {
            assert(j == h - 1 || (h <= 2 && j == 1));
            if h <= 2 {
                assert(column_crosses(xword@, i as int, h - 1) == 0);
                assert(here == 0);
            }
            assert(result + here <= (i + 1) * h) by (nonlinear_arith)
                requires
                    result <= i * h,
                    here <= h,
            ;
            assert((i + 1) * h <= w * h) by (nonlinear_arith)
                requires
                    i + 1 <= w,
            ;
        }
        result = result + here;
        i = i + 1;
    }
    proof {
        if w <= 2 {
            assert(crosses(xword@, w - 1) == 0);
        }
    }
    result
}


/// Occurrences in a whole strip.
pub open spec fn xc(s: Seq<char>) -> nat {
    xmas_count(s, s.len() as int)
}

/// Column `x` as a strip.
pub open spec fn column_spec(g: Seq<Vec<char>>, x: int) -> Seq<char> {
    Seq::new(g.len(), |j: int| g[j]@[x])
}

/// Occurrences in the first `n` rows and in the diagonals that start at their left ends.
pub open spec fn row_part(g: Seq<Vec<char>>, n: int) -> nat
    decreases n,
{
    if n <= 0 {
        0
    } else {
        row_part(g, n - 1) + xc(g[n - 1]@) + xc(diag_spec(0, n - 1, true, g)) + xc(diag_spec(0, n - 1, false, g))
    }
}

/// Occurrences in the diagonals that start on the top and bottom rows, columns one to `n`.
pub open spec fn edge_part(g: Seq<Vec<char>>, n: int) -> nat
    decreases n,
{
    if n <= 1 {
        0
    } else {
        edge_part(g, n - 1) + xc(diag_spec(n - 1, 0, true, g)) + xc(diag_spec(n - 1, g.len() - 1, false, g))
    }
}

/// Occurrences in the first `n` columns.
pub open spec fn column_part(g: Seq<Vec<char>>, n: int) -> nat
    decreases n,
{
    if n <= 0 {
        0
    } else {
        column_part(g, n - 1) + xc(column_spec(g, n - 1))
    }
}

/// Occurrences of `XMAS` in every direction: along rows, columns and both diagonals,
/// each strip read both ways.
pub open spec fn xmas_total(g: Seq<Vec<char>>) -> nat {
    row_part(g, g.len() as int) + edge_part(g, g[0]@.len() as int) + column_part(g, g[0]@.len() as int)
}

fn count_strip(s: &Vec<char>) -> (r: usize)
    ensures
        r == xc(s@),
        r <= s@.len(),
{
    proof {
        lemma_xmas_count_bound(s@, s@.len() as int);
    }
    count_xmas(s.as_slice())
}

/// Occurrences of `XMAS` in the grid, in all eight directions.
pub fn part1(xword: &Vec<Vec<char>>) -> (r: usize)
    requires
        rectangular(xword@),
        6 * xword@[0]@.len() * xword@.len() <= usize::MAX,
    ensures
        r == xmas_total(xword@),
{
    let w = xword[0].len();
    let h = xword.len();
    let ghost g = xword@;
    let mut result: usize = 0;
    let mut i: usize = 0;
    while i < h
        invariant
            g == xword@,
            rectangular(g),
            w == g[0]@.len(),
            h == g.len(),
            6 * w * h <= usize::MAX,
            i <= h,
            result == row_part(g, i as int),
            result <= 3 * w * i,
        decreases h - i,
    {
        assert(g[i as int]@.len() == w);
        let a = count_strip(&xword[i]);
        let d1 = diag_string(0, i, true, xword);
        let b = count_strip(&d1);
        let d2 = diag_string(0, i, false, xword);
        let c = count_strip(&d2);
        proof {
            assert(3 * w * i + 3 * w == 3 * w * (i + 1)) by (nonlinear_arith);
            assert(3 * w * (i + 1) <= 6 * w * h) by (nonlinear_arith)
                requires
                    i < h,
            ;
        }
        result = result + a + b + c;
        i = i + 1;
    }
    let mut j: usize = 1;
    let ghost base = result;
    while j < w
        invariant
            g == xword@,
            rectangular(g),
            w == g[0]@.len(),
            h == g.len(),
            6 * w * h <= usize::MAX,
            base == row_part(g, h as int),
            base <= 3 * w * h,
            1 <= j <= w,
            result == base + edge_part(g, j as int),
            result <= base + 2 * h * j,
        decreases w - j,
    {
        let d1 = diag_string(j, 0, true, xword);
        let a = count_strip(&d1);
        let d2 = diag_string(j, h - 1, false, xword);
        let b = count_strip(&d2);
        assert(d1@.len() <= h && d2@.len() <= h);
        proof {
            assert(2 * h * j + 2 * h == 2 * h * (j + 1)) by (nonlinear_arith);
            assert(2 * h * (j + 1) <= 2 * w * h) by (nonlinear_arith)
                requires
                    j < w,
            ;
            assert(3 * w * h + 2 * w * h <= 6 * w * h) by (nonlinear_arith);
            assert(result + a + b <= 6 * w * h);
        }
        result = result + a + b;
        j = j + 1;
    }
    let mut x: usize = 0;
    let ghost base2 = result;
    proof {
        assert(2 * h * j <= 2 * w * h) by (nonlinear_arith)
            requires
                j <= w,
        ;
        assert(3 * w * h + 2 * w * h == 5 * w * h) by (nonlinear_arith);
    }
    while x < w
        invariant
            g == xword@,
            rectangular(g),
            w == g[0]@.len(),
            h == g.len(),
            6 * w * h <= usize::MAX,
            base2 == row_part(g, h as int) + edge_part(g, w as int),
            base2 <= 5 * w * h,
            x <= w,
            result == base2 + column_part(g, x as int),
            result <= base2 + h * x,
        decreases w - x,
    {
        proof {
            assert forall|k: int| 0 <= k < g.len() implies x < (#[trigger] g[k])@.len() by {
                assert(g[k]@.len() == w);
            }
        }
        let col = vertical_string(x, xword);
        assert(col@ =~= column_spec(g, x as int));
        let a = count_strip(&col);
        proof {
            assert(h * x + h == h * (x + 1)) by (nonlinear_arith);
            assert(h * (x + 1) <= w * h) by (nonlinear_arith)
                requires
                    x < w,
            ;
            assert(5 * w * h + w * h == 6 * w * h) by (nonlinear_arith);
        }
        result = result + a;
        x = x + 1;
    }
    result
}

} // verus!
