//! Two lists of location numbers: how far apart they are, and how similar.
use vstd::prelude::*;
use crate::text::{all_i32, fields_of, i32_fields, ints_view, lines, lines_of, parse_i32_fields, rows_view};
use crate::day02::blanks;

verus! {

pub open spec fn abs(x: int) -> int {
    if x < 0 {
        -x
    } else {
        x
    }
}

/// Sum of the distances between the first `n` pairs.
pub open spec fn distance_sum(l: Seq<i32>, r: Seq<i32>, n: int) -> int
    decreases n,
{
    if n <= 0 {
        0
    } else {
        distance_sum(l, r, n - 1) + abs(l[n - 1] - r[n - 1])
    }
}

/// Number of pairs: the length of the shorter list.
pub open spec fn pairs(l: Seq<i32>, r: Seq<i32>) -> int {
    if l.len() < r.len() {
        l.len() as int
    } else {
        r.len() as int
    }
}

proof fn lemma_distance_sum_grows(l: Seq<i32>, r: Seq<i32>, i: int, n: int)
    requires
        0 <= i <= n,
    ensures
        0 <= distance_sum(l, r, i) <= distance_sum(l, r, n),
    decreases n,
{
    if i < n {
        lemma_distance_sum_grows(l, r, i, n - 1);
    } else if n > 0 {
        lemma_distance_sum_grows(l, r, n - 1, n - 1);
    }
}

/// Total distance between the lists, pair by pair.
pub fn part1(left_list: &[i32], right_list: &[i32]) -> (r: i32)
    requires
        distance_sum(left_list@, right_list@, pairs(left_list@, right_list@)) <= i32::MAX,
    ensures
        r == distance_sum(left_list@, right_list@, pairs(left_list@, right_list@)),
{
    let n = if left_list.len() < right_list.len() {
        left_list.len()
    } else {
        right_list.len()
    };
    let mut acc: i32 = 0;
    let mut i: usize = 0;
    while i < n
        invariant
            n == pairs(left_list@, right_list@),
            i <= n,
            acc == distance_sum(left_list@, right_list@, i as int),
            distance_sum(left_list@, right_list@, n as int) <= i32::MAX,
        decreases n - i,
    {
        proof {
            lemma_distance_sum_grows(left_list@, right_list@, i + 1, n as int);
        }
        let a = left_list[i] as i64;
        let b = right_list[i] as i64;
        let d = if a >= b {
            a - b
        } else {
            b - a
        };
        acc = (acc as i64 + d) as i32;
        i = i + 1;
    }
    acc
}

/// How many entries of `s` equal `x`.
pub open spec fn occurrences(s: Seq<i32>, x: i32) -> nat
    decreases s.len(),
{
    if s.len() == 0 {
        0
    } else {
        occurrences(s.drop_last(), x) + if s.last() == x {
            1nat
        } else {
            0nat
        }
    }
}

/// Sum over the first `n` left entries of the entry times its occurrences on the right.
pub open spec fn similarity(l: Seq<i32>, r: Seq<i32>, n: int) -> int
    decreases n,
{
    if n <= 0 {
        0
    } else {
        similarity(l, r, n - 1) + l[n - 1] * occurrences(r, l[n - 1])
    }
}

proof fn lemma_similarity_grows(l: Seq<i32>, r: Seq<i32>, i: int, n: int)
    requires
        0 <= i <= n <= l.len(),
        forall|j: int| 0 <= j < l.len() ==> l[j] >= 0,
    ensures
        0 <= similarity(l, r, i) <= similarity(l, r, n),
    decreases n,
{
    if i < n {
        lemma_similarity_grows(l, r, i, n - 1);
        assert(l[n - 1] * occurrences(r, l[n - 1]) >= 0) by (nonlinear_arith)
            requires
                l[n - 1] >= 0,
        ;
    } else if n > 0 {
        lemma_similarity_grows(l, r, n - 1, n - 1);
        assert(l[n - 1] * occurrences(r, l[n - 1]) >= 0) by (nonlinear_arith)
            requires
                l[n - 1] >= 0,
        ;
    }
}

fn count_of(s: &[i32], x: i32) -> (r: usize)
    ensures
        r == occurrences(s@, x),
{
    let mut count: usize = 0;
    let mut i: usize = 0;
    while i < s.len()
        invariant
            i <= s@.len(),
            count == occurrences(s@.take(i as int), x),
            count <= i,
        decreases s@.len() - i,
    {
        assert(s@.take(i + 1).drop_last() =~= s@.take(i as int));
        if s[i] == x {
            count = count + 1;
        }
        i = i + 1;
    }
    assert(s@.take(i as int) =~= s@);
    count
}

/// Similarity score: each left entry times how often it occurs in the right list.
pub fn part2(left_list: &[i32], right_list: &[i32]) -> (r: usize)
    requires
        forall|j: int| 0 <= j < left_list@.len() ==> left_list@[j] >= 0,
        similarity(left_list@, right_list@, left_list@.len() as int) <= usize::MAX,
    ensures
        r == similarity(left_list@, right_list@, left_list@.len() as int),
{
    let mut sum: usize = 0;
    let mut i: usize = 0;
    while i < left_list.len()
        invariant
            i <= left_list@.len(),
            forall|j: int| 0 <= j < left_list@.len() ==> left_list@[j] >= 0,
            similarity(left_list@, right_list@, left_list@.len() as int) <= usize::MAX,
            sum == similarity(left_list@, right_list@, i as int),
        decreases left_list@.len() - i,
    {
        proof {
            lemma_similarity_grows(left_list@, right_list@, i + 1, left_list@.len() as int);
        }
        let num = left_list[i];
        let c = count_of(right_list, num);
        let term = (num as usize) * c;
        sum = sum + term;
        i = i + 1;
    }
    sum
}


/// A line holds at least two blank-separated fields, all of them `i32`s.
pub open spec fn pair_line(line: Seq<char>) -> bool {
    all_i32(line, blanks()) && fields_of(line, blanks()).len() >= 2
}

/// Reads two columns of numbers: from each non-blank line its first and second number.
/// `None` unless every line holds at least two fields and all its fields are `i32`s.
pub fn parse_lists(text: &str) -> (r: Option<(Vec<i32>, Vec<i32>)>)
    ensures
        match r {
            Some((l, rr)) => l@.len() == lines_of(text@).len() && rr@.len() == l@.len() && forall|k: int|
                0 <= k < l@.len() ==> pair_line(lines_of(text@)[k]) && #[trigger] l@[k] == i32_fields(lines_of(text@)[k], blanks())[0]
                    && rr@[k] == i32_fields(lines_of(text@)[k], blanks())[1],
            None => exists|k: int| 0 <= k < lines_of(text@).len() && !pair_line(#[trigger] lines_of(text@)[k]),
        },
{
    let rows = lines(text);
    let seps: Vec<char> = vec![' ', '\t'];
    assert(seps@ =~= blanks());
    let mut left: Vec<i32> = Vec::new();
    let mut right: Vec<i32> = Vec::new();
    let mut k: usize = 0;
    while k < rows.len()
        invariant
            rows_view(rows@) == lines_of(text@),
            seps@ == blanks(),
            k <= rows@.len(),
            left@.len() == k,
            right@.len() == k,
            forall|j: int| 0 <= j < k ==> #[trigger] pair_line(lines_of(text@)[j]),
            forall|j: int|
                0 <= j < k ==> #[trigger] left@[j] == i32_fields(lines_of(text@)[j], blanks())[0]
                    && right@[j] == i32_fields(lines_of(text@)[j], blanks())[1],
        decreases rows@.len() - k,
    {
        assert(lines_of(text@)[k as int] == rows@[k as int]@);
        match parse_i32_fields(&rows[k], seps.as_slice()) {
            Some(v) => {
                assert(ints_view(v@).len() == v@.len());
                if v.len() < 2 {
                    return None;
                }
                assert(ints_view(v@)[0] == v@[0] as int && ints_view(v@)[1] == v@[1] as int);
                let ghost (bl, br) = (left@, right@);
                left.push(v[0]);
                right.push(v[1]);
                assert(pair_line(lines_of(text@)[k as int]));
                assert forall|j: int|
                    0 <= j < k + 1 implies #[trigger] left@[j] == i32_fields(lines_of(text@)[j], blanks())[0]
                        && right@[j] == i32_fields(lines_of(text@)[j], blanks())[1] by {
                    if j < k {
                        assert(left@[j] == bl[j] && right@[j] == br[j]);
                        assert(bl[j] == i32_fields(lines_of(text@)[j], blanks())[0]);
                    }
                }
            },
            None => {
                return None;
            },
        }
        k = k + 1;
    }
    assert(rows_view(rows@).len() == rows@.len());
    assert forall|j: int| 0 <= j < left@.len() implies pair_line(lines_of(text@)[j]) && #[trigger] left@[j] == i32_fields(lines_of(text@)[j], blanks())[0]
        && right@[j] == i32_fields(lines_of(text@)[j], blanks())[1] by {
        assert(pair_line(lines_of(text@)[j]));
    }
    Some((left, right))
}

} // verus!
