//! Pseudo-random secret numbers of market buyers.
use vstd::prelude::*;

verus! {

/// Secret numbers are kept below this modulus.
pub const PRUNE_MODULUS: i64 = 16777216;

/// Mixing combines a value into the secret by exclusive or.
pub open spec fn spec_mix(secret: i64, given: i64) -> i64 {
    secret ^ given
}

/// Pruning keeps the remainder modulo 2^24, with the sign of the secret.
pub open spec fn spec_prune(n: i64) -> i64 {
    if n >= 0 {
        (n % PRUNE_MODULUS) as i64
    } else {
        (-((-n) % (PRUNE_MODULUS as int))) as i64
    }
}

/// Quotient by 32, truncated toward zero like Rust's `/`.
pub open spec fn spec_div32(a: i64) -> i64 {
    if a >= 0 {
        (a / 32) as i64
    } else {
        (-((-a) / 32)) as i64
    }
}

/// One round of the generator.
pub open spec fn spec_evolve(s: i64) -> i64 {
    let a = spec_prune(spec_mix(s, (s * 64) as i64));
    let b = spec_prune(spec_mix(a, spec_div32(a)));
    spec_prune(spec_mix(b, (b * 2048) as i64))
}

/// `n` rounds of the generator.
pub open spec fn spec_iterations(s: i64, n: nat) -> i64
    decreases n,
{
    if n == 0 {
        s
    } else {
        spec_iterations(spec_evolve(s), (n - 1) as nat)
    }
}

/// Exclusive or of the two numbers.
pub fn mix(secret_num: i64, given_num: i64) -> (r: i64)
    ensures
        r == spec_mix(secret_num, given_num),
{
    secret_num ^ given_num
}

/// Remainder of `number` modulo 2^24, truncated toward zero like Rust's `%`.
pub fn prune(number: i64) -> (r: i64)
    ensures
        r == spec_prune(number),
        -PRUNE_MODULUS < r < PRUNE_MODULUS,
{
    number % PRUNE_MODULUS
}

/// Secrets within this bound can be multiplied by 2048 without overflow.
pub open spec fn small(s: i64) -> bool {
    -PRUNE_MODULUS < s < PRUNE_MODULUS
}

fn evolve(s: i64) -> (r: i64)
    requires
        -4503599627370496 <= s <= 4503599627370495,
    ensures
        r == spec_evolve(s),
        small(r),
{
    let a = prune(mix(s, s * 64));
    let b = prune(mix(a, a / 32));
    prune(mix(b, b * 2048))
}

/// The secret after `n` rounds starting from `number`.
pub fn iterations(number: i64, n: usize) -> (r: i64)
    requires
        -4503599627370496 <= number <= 4503599627370495,
    ensures
        r == spec_iterations(number, n as nat),
{
    let mut secret_number = number;
    let mut i: usize = 0;
    while i < n
        invariant
            i <= n,
            -4503599627370496 <= secret_number <= 4503599627370495,
            spec_iterations(number, n as nat) == spec_iterations(secret_number, (n - i) as nat),
        decreases n - i,
    {
        secret_number = evolve(secret_number);
        i = i + 1;
    }
    secret_number
}

/// The window of four deltas starting at `i` equals `sequence`.
pub open spec fn window_matches(deltas: Seq<i64>, sequence: Seq<i64>, i: int) -> bool {
    deltas.subrange(i, i + 4) == sequence
}

/// Position just after the first window of four deltas equal to `sequence`, if any.
pub fn find_first_occurrence(deltas: &Vec<i64>, sequence: &Vec<i64>) -> (r: Option<usize>)
    ensures
        match r {
            Some(idx) => idx >= 4 && idx <= deltas@.len() && window_matches(deltas@, sequence@, idx - 4)
                && forall|j: int| 0 <= j < idx - 4 ==> !#[trigger] window_matches(deltas@, sequence@, j),
            None => forall|j: int| 0 <= j && j + 4 <= deltas@.len() ==> !#[trigger] window_matches(deltas@, sequence@, j),
        },
{
    if deltas.len() < 4 {
        return None;
    }
    let n = deltas.len();
    let mut index: usize = 0;
    while index <= n - 4
        invariant
            n == deltas@.len(),
            deltas@.len() >= 4,
            index + 3 <= deltas@.len(),
            forall|j: int| 0 <= j < index ==> !#[trigger] window_matches(deltas@, sequence@, j),
        decreases n - index,
    {
        let mut same = sequence.len() == 4;
        let mut k: usize = 0;
        while k < 4 && same
            invariant
                n == deltas@.len(),
                index + 4 <= n,
                k <= 4,
                same ==> sequence@.len() == 4 && forall|m: int| 0 <= m < k ==> deltas@[index + m] == sequence@[m],
                !same ==> !window_matches(deltas@, sequence@, index as int),
            decreases 4 - k,
        {
            assert(index + k < deltas@.len());
            let at = index + k;
            if deltas[at] != sequence[k] {
                same = false;
                assert(deltas@.subrange(index as int, index + 4)[k as int] != sequence@[k as int]);
            }
            k = k + 1;
        }
        if same {
            assert(deltas@.subrange(index as int, index + 4) =~= sequence@);
            return Some(index + 4);
        }
        index = index + 1;
    }
    None
}

} // verus!
