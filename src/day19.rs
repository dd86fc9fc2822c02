//! Towel patterns: can a pattern be laid out from the available towels, and in how many ways?
use vstd::prelude::*;
use crate::text::chars_of;

verus! {

/// `t` is a prefix of `p`.
pub open spec fn starts_with(p: Seq<char>, t: Seq<char>) -> bool {
    t.len() <= p.len() && p.take(t.len() as int) == t
}

/// Every towel has at least one stripe.
pub open spec fn towels_ok(towels: Seq<Seq<char>>) -> bool {
    forall|k: int| 0 <= k < towels.len() ==> (#[trigger] towels[k]).len() > 0
}

/// The pattern is a towel, or starts with a towel after which the rest can be laid out.
pub open spec fn possible(p: Seq<char>, towels: Seq<Seq<char>>) -> bool
    decreases p.len(),
{
    exists|k: int|
        0 <= k < towels.len() && (#[trigger] towels[k] == p || (starts_with(p, towels[k]) && towels[k].len() > 0
            && possible(p.skip(towels[k].len() as int), towels)))
}

pub open spec fn strings_view(v: Seq<String>) -> Seq<Seq<char>> {
    v.map_values(|s: String| s@)
}

fn towel_chars(towels: &Vec<String>) -> (r: Vec<Vec<char>>)
    ensures
        r@.len() == towels@.len(),
        forall|k: int| 0 <= k < r@.len() ==> (#[trigger] r@[k])@ == towels@[k]@,
{
    let mut out: Vec<Vec<char>> = Vec::new();
    let mut k: usize = 0;
    while k < towels.len()
        invariant
            k <= towels@.len(),
            out@.len() == k,
            forall|j: int| 0 <= j < k ==> (#[trigger] out@[j])@ == towels@[j]@,
        decreases towels@.len() - k,
    {
        out.push(chars_of(towels[k].as_str()));
        k = k + 1;
    }
    out
}

fn same_chars(p: &Vec<char>, i: usize, t: &Vec<char>) -> (r: (bool, bool))
    requires
        i <= p@.len(),
    ensures
        r.0 == (p@.skip(i as int) == t@),
        r.1 == starts_with(p@.skip(i as int), t@),
{
    let n = p.len();
    let rest = n - i;
    if t.len() > rest {
        assert(p@.skip(i as int).len() != t@.len());
        return (false, false);
    }
    let mut k: usize = 0;
    while k < t.len()
        invariant
            n == p@.len(),
            i <= n,
            t@.len() <= n - i,
            k <= t@.len(),
            forall|m: int| 0 <= m < k ==> p@[i + m] == t@[m],
        decreases t@.len() - k,
    {
        if p[i + k] != t[k] {
            assert(p@.skip(i as int).take(t@.len() as int)[k as int] != t@[k as int]);
            assert(p@.skip(i as int)[k as int] != t@[k as int]);
            return (false, false);
        }
        k = k + 1;
    }
    assert(p@.skip(i as int).take(t@.len() as int) =~= t@);
    if t.len() == rest {
        assert(p@.skip(i as int) =~= t@);
        (true, true)
    } else {
        (false, true)
    }
}

fn possible_from(p: &Vec<char>, i: usize, towels: &Vec<Vec<char>>, tw: Ghost<Seq<Seq<char>>>) -> (r: bool)
    requires
        i <= p@.len(),
        tw@.len() == towels@.len(),
        forall|k: int| 0 <= k < tw@.len() ==> (#[trigger] towels@[k])@ == tw@[k],
        towels_ok(tw@),
    ensures
        r == possible(p@.skip(i as int), tw@),
    decreases p@.len() - i,
{
    let ghost s = p@.skip(i as int);
    let mut k: usize = 0;
    while k < towels.len()
        invariant
            i <= p@.len(),
            s == p@.skip(i as int),
            tw@.len() == towels@.len(),
            forall|j: int| 0 <= j < tw@.len() ==> (#[trigger] towels@[j])@ == tw@[j],
            towels_ok(tw@),
            k <= towels@.len(),
            forall|j: int|
                0 <= j < k ==> !(#[trigger] tw@[j] == s || (starts_with(s, tw@[j]) && tw@[j].len() > 0 && possible(
                    s.skip(tw@[j].len() as int),
                    tw@,
                ))),
        decreases towels@.len() - k,
    {
        let t = &towels[k];
        let (whole, prefix) = same_chars(p, i, t);
        assert(tw@[k as int] == t@);
        if whole {
            return true;
        }
        if prefix {
            assert(t@.len() > 0);
            let n = p.len();
            assert(i + t@.len() <= n);
            assert(s.skip(t@.len() as int) =~= p@.skip(i + t@.len()));
            if possible_from(p, i + t.len(), towels, tw) {
                return true;
            }
        }
        k = k + 1;
    }
    false
}

/// Whether the pattern can be laid out from the towels (each with at least one stripe).
pub fn is_possible(pattern: &str, towels: &Vec<String>) -> (r: bool)
    requires
        towels_ok(strings_view(towels@)),
    ensures
        r == possible(pattern@, strings_view(towels@)),
{
    let p = chars_of(pattern);
    let ts = towel_chars(towels);
    let ghost tw = strings_view(towels@);
    assert(p@.skip(0) =~= p@);
    possible_from(&p, 0, &ts, Ghost(tw))
}


/// Number of ways to lay out `p`: one if some towel is exactly `p`, plus, for each towel
/// other than `p` that starts it, the ways to lay out the rest.
pub open spec fn ways(p: Seq<char>, towels: Seq<Seq<char>>) -> nat
    decreases p.len(), towels.len() + 1,
{
    (if exists|k: int| 0 <= k < towels.len() && #[trigger] towels[k] == p {
        1nat
    } else {
        0nat
    }) + ways_from(p, towels, towels.len() as int)
}

/// The part of `ways(p)` that goes through the first `n` towels.
pub open spec fn ways_from(p: Seq<char>, towels: Seq<Seq<char>>, n: int) -> nat
    decreases p.len(), n,
{
    if n <= 0 || n > towels.len() {
        0
    } else {
        let t = towels[n - 1];
        ways_from(p, towels, n - 1) + if t != p && t.len() > 0 && starts_with(p, t) {
            ways(p.skip(t.len() as int), towels)
        } else {
            0
        }
    }
}

proof fn lemma_ways_from_grows(p: Seq<char>, towels: Seq<Seq<char>>, i: int, n: int)
    requires
        0 <= i <= n <= towels.len(),
    ensures
        ways_from(p, towels, i) <= ways_from(p, towels, n),
    decreases n - i,
{
    if i < n {
        lemma_ways_from_grows(p, towels, i, n - 1);
    }
}

/// Counts arrangements of towel patterns.
pub struct Searcher {}

impl Searcher {
    /// A searcher with nothing computed yet.
    pub fn new() -> (r: Searcher) {
        Searcher {}
    }

    fn count_from(
        p: &Vec<char>,
        i: usize,
        towels: &Vec<Vec<char>>,
        tw: Ghost<Seq<Seq<char>>>,
        memo: &mut Vec<Option<usize>>,
    ) -> (r: usize)
        requires
            i <= p@.len(),
            old(memo)@.len() == p@.len() + 1,
            forall|j: int| 0 <= j <= p@.len() ==> (#[trigger] old(memo)@[j] matches Some(v) ==> v == ways(p@.skip(j), tw@)),
            tw@.len() == towels@.len(),
            forall|k: int| 0 <= k < tw@.len() ==> (#[trigger] towels@[k])@ == tw@[k],
            ways(p@.skip(i as int), tw@) <= usize::MAX,
        ensures
            r == ways(p@.skip(i as int), tw@),
            final(memo)@.len() == p@.len() + 1,
            forall|j: int| 0 <= j <= p@.len() ==> (#[trigger] final(memo)@[j] matches Some(v) ==> v == ways(p@.skip(j), tw@)),
        decreases p@.len() - i,
    {
        if let Some(v) = memo[i] {
            return v;
        }
        let ghost s = p@.skip(i as int);
        let n = p.len();
        let mut exact = false;
        let mut k: usize = 0;
        while k < towels.len()
            invariant
                i <= n,
                n == p@.len(),
                s == p@.skip(i as int),
                tw@.len() == towels@.len(),
                forall|j: int| 0 <= j < tw@.len() ==> (#[trigger] towels@[j])@ == tw@[j],
                k <= towels@.len(),
                exact == exists|j: int| 0 <= j < k && #[trigger] tw@[j] == s,
            decreases towels@.len() - k,
        {
            let (whole, _) = same_chars(p, i, &towels[k]);
            assert(tw@[k as int] == towels@[k as int]@);
            exact = exact || whole;
            k = k + 1;
        }
        let ghost base: nat = if exact { 1 } else { 0 };
        let mut count: usize = if exact {
            1
        } else {
            0
        };
        let mut k: usize = 0;
        while k < towels.len()
            invariant
                i <= n,
                n == p@.len(),
                s == p@.skip(i as int),
                tw@.len() == towels@.len(),
                forall|j: int| 0 <= j < tw@.len() ==> (#[trigger] towels@[j])@ == tw@[j],
                k <= towels@.len(),
                base == (if exists|j: int| 0 <= j < tw@.len() && #[trigger] tw@[j] == s { 1nat } else { 0nat }),
                ways(s, tw@) <= usize::MAX,
                count == base + ways_from(s, tw@, k as int),
                memo@.len() == p@.len() + 1,
                forall|j: int| 0 <= j <= p@.len() ==> (#[trigger] memo@[j] matches Some(v) ==> v == ways(p@.skip(j), tw@)),
            decreases towels@.len() - k,
        {
            let t = &towels[k];
            assert(tw@[k as int] == t@);
            let (whole, prefix) = same_chars(p, i, t);
            proof {
                lemma_ways_from_grows(s, tw@, k + 1, tw@.len() as int);
            }
            if !whole && prefix && t.len() > 0 {
                assert(i + t@.len() <= n);
                assert(s.skip(t@.len() as int) =~= p@.skip(i + t@.len()));
                let sub = Self::count_from(p, i + t.len(), towels, tw, memo);
                count = count + sub;
            }
            k = k + 1;
        }
        memo.set(i, Some(count));
        count
    }

    /// Number of ways to lay out `pattern` from the towels.
    pub fn possibilities(&mut self, pattern: &str, towels: &Vec<String>) -> (r: usize)
        requires
            ways(pattern@, strings_view(towels@)) <= usize::MAX,
        ensures
            r == ways(pattern@, strings_view(towels@)),
    {
        let p = chars_of(pattern);
        let ts = towel_chars(towels);
        let ghost tw = strings_view(towels@);
        let mut memo: Vec<Option<usize>> = Vec::new();
        memo.push(None);
        let mut j: usize = 0;
        while j < p.len()
            invariant
                j <= p@.len(),
                memo@.len() == j + 1,
                forall|m: int| 0 <= m <= j ==> memo@[m] is None,
            decreases p@.len() - j,
        {
            memo.push(None);
            j = j + 1;
        }
        assert(p@.skip(0) =~= p@);
        Self::count_from(&p, 0, &ts, Ghost(tw), &mut memo)
    }
}

} // verus!
