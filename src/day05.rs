//! Print queue: page ordering rules and the updates that follow them.
use vstd::prelude::*;

verus! {

/// Some rule says `before` must come before `after`.
pub open spec fn has_rule(rules: Seq<(usize, usize)>, before: usize, after: usize) -> bool {
    exists|k: int| 0 <= k < rules.len() && #[trigger] rules[k] == (before, after)
}

/// No page is followed by a page that a rule says must come before it.
pub open spec fn ordered(pages: Seq<usize>, rules: Seq<(usize, usize)>) -> bool {
    forall|i: int, j: int| 0 <= i < j < pages.len() ==> !#[trigger] has_rule(rules, pages[j], pages[i])
}

fn rule_exists(rules: &Vec<(usize, usize)>, before: usize, after: usize) -> (r: bool)
    ensures
        r == has_rule(rules@, before, after),
{
    let mut k: usize = 0;
    while k < rules.len()
        invariant
            k <= rules@.len(),
            forall|m: int| 0 <= m < k ==> rules@[m] != (before, after),
        decreases rules@.len() - k,
    {
        if rules[k].0 == before && rules[k].1 == after {
            return true;
        }
        k = k + 1;
    }
    false
}

/// Whether the update respects every rule.
pub fn is_valid(pages: &[usize], rules: &Vec<(usize, usize)>) -> (r: bool)
    ensures
        r == ordered(pages@, rules@),
{
    let mut i: usize = 0;
    while i < pages.len()
        invariant
            i <= pages@.len(),
            forall|a: int, b: int| 0 <= a < i && a < b < pages@.len() ==> !#[trigger] has_rule(rules@, pages@[b], pages@[a]),
        decreases pages@.len() - i,
    {
        let mut j: usize = i + 1;
        while j < pages.len()
            invariant
                i < pages@.len(),
                i + 1 <= j <= pages@.len(),
                forall|a: int, b: int| 0 <= a < i && a < b < pages@.len() ==> !#[trigger] has_rule(rules@, pages@[b], pages@[a]),
                forall|b: int| i < b < j ==> !#[trigger] has_rule(rules@, pages@[b], pages@[i as int]),
            decreases pages@.len() - j,
        {
            if rule_exists(rules, pages[j], pages[i]) {
                return false;
            }
            j = j + 1;
        }
        i = i + 1;
    }
    true
}

/// Sum of the middle pages of the first `n` updates that respect the rules.
pub open spec fn middle_sum(updates: Seq<Vec<usize>>, rules: Seq<(usize, usize)>, n: int) -> int
    decreases n,
{
    if n <= 0 {
        0
    } else {
        let p = updates[n - 1]@;
        middle_sum(updates, rules, n - 1) + if ordered(p, rules) {
            p[(p.len() / 2) as int] as int
        } else {
            0
        }
    }
}

proof fn lemma_middle_sum_grows(updates: Seq<Vec<usize>>, rules: Seq<(usize, usize)>, i: int, n: int)
    requires
        0 <= i <= n,
    ensures
        0 <= middle_sum(updates, rules, i) <= middle_sum(updates, rules, n),
    decreases n,
{
    if n > 0 {
        if i < n {
            lemma_middle_sum_grows(updates, rules, i, n - 1);
        } else {
            lemma_middle_sum_grows(updates, rules, n - 1, n - 1);
        }
    }
}

/// Sum of the middle pages of the updates that respect the rules.
pub fn part1(pages: &Vec<Vec<usize>>, rules: &Vec<(usize, usize)>) -> (r: usize)
    requires
        forall|k: int| 0 <= k < pages@.len() ==> (#[trigger] pages@[k])@.len() > 0,
        middle_sum(pages@, rules@, pages@.len() as int) <= usize::MAX,
    ensures
        r == middle_sum(pages@, rules@, pages@.len() as int),
{
    let mut sum: usize = 0;
    let mut k: usize = 0;
    while k < pages.len()
        invariant
            k <= pages@.len(),
            forall|m: int| 0 <= m < pages@.len() ==> (#[trigger] pages@[m])@.len() > 0,
            middle_sum(pages@, rules@, pages@.len() as int) <= usize::MAX,
            sum == middle_sum(pages@, rules@, k as int),
        decreases pages@.len() - k,
    {
        proof {
            lemma_middle_sum_grows(pages@, rules@, k + 1, pages@.len() as int);
        }
        let p = &pages[k];
        assert(p@.len() > 0);
        if is_valid(p.as_slice(), rules) {
            sum = sum + p[p.len() / 2];
        }
        k = k + 1;
    }
    sum
}

} // verus!
