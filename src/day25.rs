//! Lock and key schematics: pin heights, and whether a key fits a lock.
use vstd::prelude::*;
use crate::text::{lines, lines_of, rows_view};

verus! {

/// A key: how far each column's teeth rise from the bottom row.
#[derive(Debug, PartialEq, Eq)]
pub struct Key {
    pub heights: Vec<u8>,
}

/// A lock: how far each column's pins hang from the top row.
#[derive(Debug, PartialEq, Eq)]
pub struct Lock {
    pub heights: Vec<u8>,
}

/// Why a schematic could not be read.
#[derive(Debug, Clone, Copy, PartialEq, Eq, Structural)]
pub enum SchematicError {
    /// No rows, rows of unequal length, or more rows than a height can count.
    Malformed,
}

/// Rows of equal, non-zero length, no more than 255 of them.
pub open spec fn well_formed(rows: Seq<Seq<char>>) -> bool {
    &&& 0 < rows.len() <= 255
    &&& forall|i: int| 0 <= i < rows.len() ==> #[trigger] rows[i].len() == rows[0].len()
}

/// Number of `#` in column `col` going up from row `j` until the first other character.
pub open spec fn run_up(rows: Seq<Seq<char>>, col: int, j: int) -> nat
    decreases j + 1,
{
    if j < 0 || rows[j][col] != '#' {
        0
    } else {
        1 + run_up(rows, col, j - 1)
    }
}

/// Number of `#` in column `col` going down from row `j` until the first other character.
pub open spec fn run_down(rows: Seq<Seq<char>>, col: int, j: int) -> nat
    decreases rows.len() - j,
{
    if j >= rows.len() || j < 0 || rows[j][col] != '#' {
        0
    } else {
        1 + run_down(rows, col, j + 1)
    }
}

/// Key heights: the `#` above the bottom row, counted upward in each column.
pub open spec fn key_heights(rows: Seq<Seq<char>>) -> Seq<nat> {
    Seq::new(rows[0].len(), |i: int| run_up(rows, i, rows.len() - 2))
}

/// Lock heights: the `#` below the top row, counted downward in each column.
pub open spec fn lock_heights(rows: Seq<Seq<char>>) -> Seq<nat> {
    Seq::new(rows[0].len(), |i: int| run_down(rows, i, 1))
}

pub open spec fn heights_view(h: Seq<u8>) -> Seq<nat> {
    h.map_values(|x: u8| x as nat)
}

fn check_rows(rows: &Vec<Vec<char>>) -> (ok: bool)
    ensures
        ok == well_formed(rows_view(rows@)),
{
    let ghost g = rows_view(rows@);
    if rows.len() == 0 || rows.len() > 255 {
        return false;
    }
    let w = rows[0].len();
    let mut i: usize = 0;
    while i < rows.len()
        invariant
            g == rows_view(rows@),
            0 < rows@.len() <= 255,
            w == g[0].len(),
            i <= rows@.len(),
            forall|j: int| 0 <= j < i ==> #[trigger] g[j].len() == w,
        decreases rows@.len() - i,
    {
        assert(g[i as int] == rows@[i as int]@);
        if rows[i].len() != w {
            return false;
        }
        i = i + 1;
    }
    true
}

/// Counts `#` in column `col` going up from row `start`.
fn count_up(rows: &Vec<Vec<char>>, col: usize, start: usize) -> (r: u8)
    requires
        well_formed(rows_view(rows@)),
        col < rows@[0]@.len(),
        start < rows@.len(),
    ensures
        r == run_up(rows_view(rows@), col as int, start as int),
{
    let ghost g = rows_view(rows@);
    let mut k: usize = 0;
    while k <= start && rows[start - k][col] == '#'
        invariant
            g == rows_view(rows@),
            well_formed(g),
            col < g[0].len(),
            start < g.len(),
            k <= start + 1,
            run_up(g, col as int, start as int) == k + run_up(g, col as int, start - k),
        decreases start + 1 - k,
    {
        assert(g[start - k] == rows@[start - k]@);
        k = k + 1;
    }
    proof {
        if k <= start {
            assert(g[start - k] == rows@[start - k]@);
        }
    }
    k as u8
}

/// Counts `#` in column `col` going down from row `start`.
fn count_down(rows: &Vec<Vec<char>>, col: usize, start: usize) -> (r: u8)
    requires
        well_formed(rows_view(rows@)),
        col < rows@[0]@.len(),
        start < rows@.len(),
    ensures
        r == run_down(rows_view(rows@), col as int, start as int),
{
    let ghost g = rows_view(rows@);
    let mut k: usize = 0;
    while start + k < rows.len() && rows[start + k][col] == '#'
        invariant
            g == rows_view(rows@),
            well_formed(g),
            col < g[0].len(),
            start < g.len(),
            start + k <= g.len(),
            run_down(g, col as int, start as int) == k + run_down(g, col as int, start + k),
        decreases g.len() - start - k,
    {
        assert(g[start + k] == rows@[start + k]@);
        k = k + 1;
    }
    proof {
        if start + k < g.len() {
            assert(g[start + k] == rows@[start + k]@);
        }
    }
    k as u8
}

fn read_heights(s: &str, lock: bool) -> (r: Result<Vec<u8>, SchematicError>)
    ensures
        match r {
            Ok(h) => well_formed(lines_of(s@)) && heights_view(h@) == if lock {
                lock_heights(lines_of(s@))
            } else {
                key_heights(lines_of(s@))
            },
            Err(_) => !well_formed(lines_of(s@)),
        },
{
    let rows = lines(s);
    let ghost g = rows_view(rows@);
    if !check_rows(&rows) {
        return Err(SchematicError::Malformed);
    }
    let w = rows[0].len();
    let mut heights: Vec<u8> = Vec::new();
    let mut i: usize = 0;
    while i < w
        invariant
            g == rows_view(rows@),
            g == lines_of(s@),
            well_formed(g),
            w == g[0].len(),
            i <= w,
            heights_view(heights@) == if lock {
                lock_heights(g).take(i as int)
            } else {
                key_heights(g).take(i as int)
            },
        decreases w - i,
    {
        let h = if lock {
            if rows.len() >= 2 {
                count_down(&rows, i, 1)
            } else {
                0
            }
        } else {
            if rows.len() >= 2 {
                count_up(&rows, i, rows.len() - 2)
            } else {
                0
            }
        };
        let ghost before = heights@;
        heights.push(h);
        i = i + 1;
        proof {
            assert(heights_view(heights@) =~= heights_view(before).push(h as nat));
            if lock {
                assert(heights_view(heights@) =~= lock_heights(g).take(i as int));
            } else {
                assert(heights_view(heights@) =~= key_heights(g).take(i as int));
            }
        }
    }
    proof {
        if lock {
            assert(lock_heights(g).take(i as int) =~= lock_heights(g));
        } else {
            assert(key_heights(g).take(i as int) =~= key_heights(g));
        }
    }
    Ok(heights)
}

impl Key {
    /// Reads a key schematic.
    pub fn from_str(s: &str) -> (r: Result<Key, SchematicError>)
        ensures
            match r {
                Ok(k) => well_formed(lines_of(s@)) && heights_view(k.heights@) == key_heights(lines_of(s@)),
                Err(_) => !well_formed(lines_of(s@)),
            },
    {
        match read_heights(s, false) {
            Ok(heights) => Ok(Key { heights }),
            Err(e) => Err(e),
        }
    }
}

/// Overlapping columns never hold more than five between them.
pub open spec fn fits(lock: Seq<u8>, key: Seq<u8>) -> bool {
    forall|i: int| 0 <= i < lock.len() && i < key.len() ==> #[trigger] lock[i] + key[i] <= 5
}

impl Lock {
    /// Reads a lock schematic.
    pub fn from_str(s: &str) -> (r: Result<Lock, SchematicError>)
        ensures
            match r {
                Ok(l) => well_formed(lines_of(s@)) && heights_view(l.heights@) == lock_heights(lines_of(s@)),
                Err(_) => !well_formed(lines_of(s@)),
            },
    {
        match read_heights(s, true) {
            Ok(heights) => Ok(Lock { heights }),
            Err(e) => Err(e),
        }
    }

    /// Whether the key fits: in no column do the pin and the tooth overlap.
    pub fn accepts(&self, key: &Key) -> (r: bool)
        ensures
            r == fits(self.heights@, key.heights@),
    {
        let mut i: usize = 0;
        while i < self.heights.len() && i < key.heights.len()
            invariant
                i <= self.heights@.len(),
                forall|j: int| 0 <= j < i ==> #[trigger] self.heights@[j] + key.heights@[j] <= 5,
            decreases self.heights@.len() - i,
        {
            if self.heights[i] as u16 + key.heights[i] as u16 > 5 {
                return false;
            }
            i = i + 1;
        }
        true
    }
}


/// Keys among the first `n` that fit `lock`.
pub open spec fn keys_fitting(lock: Seq<u8>, keys: Seq<Key>, n: int) -> nat
    decreases n,
{
    if n <= 0 {
        0
    } else {
        keys_fitting(lock, keys, n - 1) + if fits(lock, keys[n - 1].heights@) {
            1nat
        } else {
            0nat
        }
    }
}

/// Lock and key pairs, locks among the first `n`, where the key fits.
pub open spec fn pairs_fitting(locks: Seq<Lock>, keys: Seq<Key>, n: int) -> nat
    decreases n,
{
    if n <= 0 {
        0
    } else {
        pairs_fitting(locks, keys, n - 1) + keys_fitting(locks[n - 1].heights@, keys, keys.len() as int)
    }
}

/// Number of lock and key pairs in which the key fits the lock.
pub fn fitting_pairs(locks: &Vec<Lock>, keys: &Vec<Key>) -> (r: usize)
    requires
        locks@.len() * keys@.len() <= usize::MAX,
    ensures
        r == pairs_fitting(locks@, keys@, locks@.len() as int),
{
    let mut total: usize = 0;
    let mut i: usize = 0;
    while i < locks.len()
        invariant
            locks@.len() * keys@.len() <= usize::MAX,
            i <= locks@.len(),
            total == pairs_fitting(locks@, keys@, i as int),
            total <= i * keys@.len(),
        decreases locks@.len() - i,
    {
        let mut here: usize = 0;
        let mut j: usize = 0;
        while j < keys.len()
            invariant
                i < locks@.len(),
                j <= keys@.len(),
                here == keys_fitting(locks@[i as int].heights@, keys@, j as int),
                here <= j,
            decreases keys@.len() - j,
        {
            if locks[i].accepts(&keys[j]) {
                here = here + 1;
            }
            j = j + 1;
        }
        proof {
            assert(total + here <= (i + 1) * keys@.len()) by (nonlinear_arith)
                requires
                    total <= i * keys@.len(),
                    here <= keys@.len(),
            ;
            assert((i + 1) * keys@.len() <= locks@.len() * keys@.len()) by (nonlinear_arith)
                requires
                    i < locks@.len(),
            ;
        }
        total = total + here;
        i = i + 1;
    }
    total
}

} // verus!
