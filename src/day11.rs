//! Stones that change every time one blinks: the rule for a single stone.
use vstd::prelude::*;
use std::collections::HashMap;
use crate::day07::{digits, pow10};

verus! {

broadcast use vstd::std_specs::hash::group_hash_axioms;

/// What one stone engraved with `n` becomes after a blink, as counts per engraving: a zero
/// becomes a one; an even number of digits splits into its two halves; anything else is
/// multiplied by 2024.
pub open spec fn blink(n: u64) -> Map<u64, u64> {
    if n == 0 {
        map![1u64 => 1u64]
    } else if digits(n as nat) % 2 == 0 {
        let h = pow10(digits(n as nat) / 2);
        let left = ((n as nat) / h) as u64;
        let right = ((n as nat) % h) as u64;
        if left == right {
            map![left => 2u64]
        } else {
            map![left => 1u64, right => 1u64]
        }
    } else {
        map![(n * 2024) as u64 => 1u64]
    }
}

proof fn lemma_digits(n: nat)
    ensures
        digits(n) >= 1,
        pow10((digits(n) - 1) as nat) <= n || n == 0,
        n < pow10(digits(n)),
    decreases n,
{
    reveal_with_fuel(pow10, 2);
    if n >= 10 {
        lemma_digits(n / 10);
        let d = digits(n / 10);
        assert(pow10(d + 1) == 10 * pow10(d));
        assert(n < 10 * pow10(d)) by (nonlinear_arith)
            requires
                n / 10 < pow10(d),
                n >= 10,
        ;
        if d >= 1 {
            assert(pow10(d) == 10 * pow10((d - 1) as nat));
            assert(10 * pow10((d - 1) as nat) <= n) by (nonlinear_arith)
                requires
                    pow10((d - 1) as nat) <= n / 10,
                    n >= 10,
            ;
        }
    }
}

proof fn lemma_pow10_mono(a: nat, b: nat)
    requires
        a <= b,
    ensures
        pow10(a) <= pow10(b),
        pow10(a) >= 1,
    decreases b,
{
    if a < b {
        lemma_pow10_mono(a, (b - 1) as nat);
    } else if a > 0 {
        lemma_pow10_mono((a - 1) as nat, (a - 1) as nat);
    }
}

fn digit_count(n: u64) -> (d: u32)
    ensures
        d == digits(n as nat),
{
    let mut d: u32 = 1;
    let mut rest: u64 = n;
    proof {
        lemma_digits_bound(n as nat);
    }
    while rest >= 10
        invariant
            d + digits(rest as nat) == digits(n as nat) + 1,
            digits(n as nat) <= 20,
            d >= 1,
        decreases rest,
    {
        proof {
            lemma_digits(rest as nat / 10);
        }
        rest = rest / 10;
        d = d + 1;
    }
    d
}

proof fn lemma_digits_bound(n: nat)
    requires
        n <= u64::MAX,
    ensures
        digits(n) <= 20,
{
    lemma_digits(n);
    reveal_with_fuel(pow10, 21);
    assert(pow10(19) == 10000000000000000000);
    if digits(n) > 20 {
        lemma_pow10_mono(20, (digits(n) - 1) as nat);
    }
}

fn pow10_of(k: u32) -> (r: u64)
    requires
        pow10(k as nat) <= u64::MAX,
    ensures
        r == pow10(k as nat),
{
    let mut r: u64 = 1;
    let mut i: u32 = 0;
    while i < k
        invariant
            i <= k,
            r == pow10(i as nat),
            pow10(k as nat) <= u64::MAX,
        decreases k - i,
    {
        proof {
            lemma_pow10_mono((i + 1) as nat, k as nat);
        }
        r = r * 10;
        i = i + 1;
    }
    r
}

/// Counts per engraving of what the stone `num` becomes after one blink.
pub fn update_one_num(num: u64) -> (r: HashMap<u64, u64>)
    requires
        digits(num as nat) % 2 == 1 ==> num * 2024 <= u64::MAX,
    ensures
        r@ == blink(num),
{
    let mut result: HashMap<u64, u64> = HashMap::new();
    if num == 0 {
        result.insert(1, 1);
        assert(result@ =~= blink(num));
        return result;
    }
    let d = digit_count(num);
    if d % 2 == 0 {
        proof {
            lemma_digits(num as nat);
            lemma_pow10_mono((d / 2) as nat, (d - 1) as nat);
        }
        let h = pow10_of(d / 2);
        let left = num / h;
        let right = num % h;
        if left == right {
            result.insert(left, 2);
        } else {
            result.insert(left, 1);
            result.insert(right, 1);
        }
        assert(result@ =~= blink(num));
        return result;
    }
    result.insert(num * 2024, 1);
    assert(result@ =~= blink(num));
    result
}

} // verus!
