//! Disk maps: block checksums and whether the files sit together at the front.
use vstd::prelude::*;

verus! {

/// A run of blocks holding one file.
#[derive(Debug)]
pub struct Block {
    pub id: usize,
    pub start: usize,
    pub len: usize,
}

impl Block {
    /// A copy of the block.
    pub fn clone(&self) -> (r: Block)
        ensures
            r.id == self.id && r.start == self.start && r.len == self.len,
    {
        Block { id: self.id, start: self.start, len: self.len }
    }
}

/// Sum over the first `n` blocks of position times file id; free blocks add nothing.
pub open spec fn checksum_of(v: Seq<Option<usize>>, n: int) -> int
    decreases n,
{
    if n <= 0 {
        0
    } else {
        checksum_of(v, n - 1) + match v[n - 1] {
            Some(id) => (n - 1) * id,
            None => 0,
        }
    }
}

proof fn lemma_checksum_grows(v: Seq<Option<usize>>, i: int, n: int)
    requires
        0 <= i <= n,
    ensures
        0 <= checksum_of(v, i) <= checksum_of(v, n),
    decreases n,
{
    if n > 0 {
        if i < n {
            lemma_checksum_grows(v, i, n - 1);
        } else {
            lemma_checksum_grows(v, n - 1, n - 1);
        }
        match v[n - 1] {
            Some(id) => {
                assert((n - 1) * id >= 0) by (nonlinear_arith)
                    requires
                        n >= 1,
                        id >= 0,
                ;
            },
            None => {},
        }
    }
}

/// The filesystem checksum.
pub fn checksum(v: &[Option<usize>]) -> (r: usize)
    requires
        checksum_of(v@, v@.len() as int) <= usize::MAX,
    ensures
        r == checksum_of(v@, v@.len() as int),
{
    let mut sum: usize = 0;
    let mut i: usize = 0;
    while i < v.len()
        invariant
            i <= v@.len(),
            checksum_of(v@, v@.len() as int) <= usize::MAX,
            sum == checksum_of(v@, i as int),
        decreases v@.len() - i,
    {
        proof {
            lemma_checksum_grows(v@, i + 1, v@.len() as int);
        }
        match v[i] {
            Some(id) => {
                sum = sum + i * id;
            },
            None => {},
        }
        i = i + 1;
    }
    sum
}

/// How many of the blocks hold a file.
pub open spec fn used(v: Seq<Option<usize>>) -> nat
    decreases v.len(),
{
    if v.len() == 0 {
        0
    } else {
        used(v.drop_last()) + if v.last() is Some {
            1nat
        } else {
            0nat
        }
    }
}

/// Every file block comes before every free block.
pub open spec fn compact(v: Seq<Option<usize>>) -> bool {
    forall|i: int| 0 <= i < used(v) ==> #[trigger] v[i] is Some
}

/// Whether the first blocks, as many as there are file blocks, all hold files.
pub fn is_compact(v: &Vec<Option<usize>>) -> (r: bool)
    ensures
        r == compact(v@),
{
    let mut total: usize = 0;
    let mut i: usize = 0;
    while i < v.len()
        invariant
            i <= v@.len(),
            total == used(v@.take(i as int)),
            total <= i,
        decreases v@.len() - i,
    {
        assert(v@.take(i + 1).drop_last() =~= v@.take(i as int));
        if v[i].is_some() {
            total = total + 1;
        }
        i = i + 1;
    }
    assert(v@.take(i as int) =~= v@);
    let mut j: usize = 0;
    while j < total
        invariant
            total == used(v@),
            total <= v@.len(),
            j <= total,
            forall|k: int| 0 <= k < j ==> #[trigger] v@[k] is Some,
        decreases total - j,
    {
        if v[j].is_none() {
            return false;
        }
        j = j + 1;
    }
    true
}

} // verus!
