//! Calibration equations: can `+`, `*` and digit concatenation, applied left to right,
//! turn a list of numbers into the test value?
use vstd::prelude::*;
use crate::text::{fields, fields_of, lines, lines_of, parse_i64, rows_view, value_or_zero, int_value};

verus! {

/// A test value and the numbers that should produce it.
pub struct Equation(pub u64, pub Vec<u64>);

/// Number of decimal digits of `n` (zero has one).
pub open spec fn digits(n: nat) -> nat
    decreases n,
{
    if n < 10 {
        1
    } else {
        1 + digits(n / 10)
    }
}

pub open spec fn pow10(k: nat) -> nat
    decreases k,
{
    if k == 0 {
        1
    } else {
        10 * pow10((k - 1) as nat)
    }
}

proof fn lemma_pow10_positive(k: nat)
    ensures
        pow10(k) >= 1,
    decreases k,
{
    if k > 0 {
        lemma_pow10_positive((k - 1) as nat);
    }
}

/// The digits of `a` followed by the digits of `b`.
pub open spec fn spec_concat(a: nat, b: nat) -> nat {
    a * pow10(digits(b)) + b
}

/// The digits of `a` followed by those of `b`, or `None` when that exceeds `u64`.
fn checked_concat(a: u64, b: u64) -> (r: Option<u64>)
    ensures
        match r {
            Some(v) => v == spec_concat(a as nat, b as nat),
            None => spec_concat(a as nat, b as nat) > u64::MAX,
        },
{
    if a == 0 {
        return Some(b);
    }
    let mut p: u64 = 1;
    let mut rest: u64 = b;
    proof {
        lemma_pow10_positive(digits(b as nat));
    }
    loop
        invariant
            a >= 1,
            pow10(digits(b as nat)) == p * pow10(digits(rest as nat)),
        ensures
            pow10(digits(b as nat)) == p * pow10(digits(rest as nat)),
            rest < 10,
        decreases rest,
    {
        if rest < 10 {
            break;
        }
        proof {
            lemma_pow10_positive(digits((rest / 10) as nat));
            assert(pow10(digits(rest as nat)) == 10 * pow10(digits((rest / 10) as nat)));
        }
        p = match p.checked_mul(10) {
            Some(v) => v,
            None => {
                proof {
                    assert(p * pow10(digits(rest as nat)) >= p * 10) by (nonlinear_arith)
                        requires
                            pow10(digits(rest as nat)) >= 10,
                    ;
                    assert(a * pow10(digits(b as nat)) >= pow10(digits(b as nat))) by (nonlinear_arith)
                        requires
                            a >= 1,
                    ;
                }
                return None;
            },
        };
        proof {
            assert(p * pow10(digits((rest / 10) as nat)) == (p / 10) * pow10(digits(rest as nat))) by (nonlinear_arith)
                requires
                    p % 10 == 0,
                    pow10(digits(rest as nat)) == 10 * pow10(digits((rest / 10) as nat)),
            ;
        }
        rest = rest / 10;
    }
    assert(rest < 10);
    assert(digits(rest as nat) == 1);
    assert(pow10(0) == 1);
    assert(pow10(1) == 10);
    p = match p.checked_mul(10) {
        Some(v) => v,
        None => {
            proof {
                assert(a * pow10(digits(b as nat)) >= pow10(digits(b as nat))) by (nonlinear_arith)
                    requires
                        a >= 1,
                ;
            }
            return None;
        },
    };
    match a.checked_mul(p) {
        Some(ap) => ap.checked_add(b),
        None => None,
    }
}

/// The digits of `num1` followed by the digits of `num2`.
pub fn concat(num1: u64, num2: u64) -> (r: u64)
    requires
        spec_concat(num1 as nat, num2 as nat) <= u64::MAX,
    ensures
        r == spec_concat(num1 as nat, num2 as nat),
{
    match checked_concat(num1, num2) {
        Some(v) => v,
        None => 0,
    }
}

/// Applying the operators left to right to `acc` and `nums[i..]` can give `target`.
/// A branch whose running value leaves `u64` is dropped.
pub open spec fn reachable(target: nat, acc: nat, nums: Seq<u64>, i: int, part2: bool) -> bool
    decreases nums.len() - i,
{
    if i >= nums.len() || i < 0 {
        acc == target
    } else {
        let n = nums[i] as nat;
        ||| (acc + n <= u64::MAX && reachable(target, acc + n, nums, i + 1, part2))
        ||| (acc * n <= u64::MAX && reachable(target, acc * n, nums, i + 1, part2))
        ||| (part2 && spec_concat(acc, n) <= u64::MAX && reachable(target, spec_concat(acc, n), nums, i + 1, part2))
    }
}

/// Some choice of operators turns the numbers into the test value.
pub open spec fn holds(e: Equation, part2: bool) -> bool {
    e.1@.len() >= 1 && reachable(e.0 as nat, e.1@[0] as nat, e.1@, 1, part2)
}

fn reach(target: u64, acc: u64, nums: &Vec<u64>, i: usize, part2: bool) -> (r: bool)
    requires
        1 <= i <= nums@.len(),
    ensures
        r == reachable(target as nat, acc as nat, nums@, i as int, part2),
    decreases nums@.len() - i,
{
    if i == nums.len() {
        return acc == target;
    }
    let n = nums[i];
    let by_add = match acc.checked_add(n) {
        Some(v) => reach(target, v, nums, i + 1, part2),
        None => false,
    };
    if by_add {
        return true;
    }
    let by_mul = match acc.checked_mul(n) {
        Some(v) => reach(target, v, nums, i + 1, part2),
        None => false,
    };
    if by_mul {
        return true;
    }
    if !part2 {
        return false;
    }
    match checked_concat(acc, n) {
        Some(v) => reach(target, v, nums, i + 1, part2),
        None => false,
    }
}

/// Whether some choice of operators (concatenation only when `part2`) makes the equation true.
pub fn is_valid(equation: &Equation, part2: bool) -> (r: bool)
    ensures
        r == holds(*equation, part2),
{
    if equation.1.len() == 0 {
        return false;
    }
    reach(equation.0, equation.1[0], &equation.1, 1, part2)
}


/// Separators in an equation line such as `190: 10 19`.
pub open spec fn equation_seps() -> Seq<char> {
    seq![' ', ':', '\t']
}

/// A field writes a non-negative integer that fits an `i64`.
pub open spec fn is_count_text(f: Seq<char>) -> bool {
    match int_value(f) {
        Some(v) => 0 <= v <= i64::MAX,
        None => false,
    }
}

/// A line holds a test value and at least one number, all non-negative `i64`s.
pub open spec fn equation_line(line: Seq<char>) -> bool {
    let fs = fields_of(line, equation_seps());
    fs.len() >= 2 && forall|j: int| 0 <= j < fs.len() ==> #[trigger] is_count_text(fs[j])
}

/// The equation a line writes: its first number is the test value, the rest its numbers.
pub open spec fn equation_of(e: Equation, line: Seq<char>) -> bool {
    let fs = fields_of(line, equation_seps());
    &&& e.0 == value_or_zero(fs[0])
    &&& e.1@.len() == fs.len() - 1
    &&& forall|j: int| 0 <= j < e.1@.len() ==> #[trigger] e.1@[j] == value_or_zero(fs[j + 1])
}

fn parse_equation(line: &Vec<char>, seps: &[char]) -> (r: Option<Equation>)
    requires
        seps@ == equation_seps(),
    ensures
        match r {
            Some(e) => equation_line(line@) && equation_of(e, line@),
            None => !equation_line(line@),
        },
{
    let fs = fields(line, seps);
    let ghost f = fields_of(line@, seps@);
    if fs.len() < 2 {
        return None;
    }
    let mut nums: Vec<u64> = Vec::new();
    let mut j: usize = 0;
    while j < fs.len()
        invariant
            rows_view(fs@) == f,
            f == fields_of(line@, equation_seps()),
            fs@.len() >= 2,
            j <= fs@.len(),
            nums@.len() == j,
            forall|k: int| 0 <= k < j ==> #[trigger] is_count_text(f[k]),
            forall|k: int| 0 <= k < j ==> #[trigger] nums@[k] == value_or_zero(f[k]),
        decreases fs@.len() - j,
    {
        assert(f[j as int] == fs@[j as int]@);
        match parse_i64(&fs[j]) {
            Some(v) => {
                if v < 0 {
                    assert(!is_count_text(f[j as int]));
                    return None;
                }
                nums.push(v as u64);
            },
            None => {
                assert(!is_count_text(f[j as int]));
                return None;
            },
        }
        j = j + 1;
    }
    let target = nums[0];
    let mut rest: Vec<u64> = Vec::new();
    let mut k: usize = 1;
    while k < nums.len()
        invariant
            1 <= k <= nums@.len(),
            rest@.len() == k - 1,
            forall|m: int| 0 <= m < k - 1 ==> #[trigger] rest@[m] == nums@[m + 1],
        decreases nums@.len() - k,
    {
        rest.push(nums[k]);
        k = k + 1;
    }
    Some(Equation(target, rest))
}

/// Reads one equation per non-blank line; `None` unless every line holds a test value and
/// at least one number, all non-negative `i64`s.
pub fn parse_equations(text: &str) -> (r: Option<Vec<Equation>>)
    ensures
        match r {
            Some(es) => es@.len() == lines_of(text@).len() && forall|k: int|
                0 <= k < es@.len() ==> equation_line(lines_of(text@)[k]) && equation_of(#[trigger] es@[k], lines_of(text@)[k]),
            None => exists|k: int| 0 <= k < lines_of(text@).len() && !equation_line(#[trigger] lines_of(text@)[k]),
        },
{
    let rows = lines(text);
    let seps: Vec<char> = vec![' ', ':', '\t'];
    assert(seps@ =~= equation_seps());
    let mut out: Vec<Equation> = Vec::new();
    let mut k: usize = 0;
    while k < rows.len()
        invariant
            rows_view(rows@) == lines_of(text@),
            seps@ == equation_seps(),
            k <= rows@.len(),
            out@.len() == k,
            forall|j: int| 0 <= j < k ==> #[trigger] equation_line(lines_of(text@)[j]),
            forall|j: int| 0 <= j < k ==> equation_of(#[trigger] out@[j], lines_of(text@)[j]),
        decreases rows@.len() - k,
    {
        assert(lines_of(text@)[k as int] == rows@[k as int]@);
        match parse_equation(&rows[k], seps.as_slice()) {
            Some(e) => {
                let ghost before = out@;
                out.push(e);
                assert forall|j: int| 0 <= j < k + 1 implies equation_of(#[trigger] out@[j], lines_of(text@)[j]) by {
                    if j < k {
                        assert(out@[j] == before[j]);
                    }
                }
            },
            None => {
                return None;
            },
        }
        k = k + 1;
    }
    assert(rows_view(rows@).len() == rows@.len());
    assert forall|j: int| 0 <= j < out@.len() implies equation_line(lines_of(text@)[j]) && equation_of(#[trigger] out@[j], lines_of(text@)[j]) by {
        assert(equation_line(lines_of(text@)[j]));
    }
    Some(out)
}

} // verus!
