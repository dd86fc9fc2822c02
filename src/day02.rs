//! Reactor reports: is each level sequence gently and steadily rising or falling?
use vstd::prelude::*;
use crate::text::{all_i32, i32_fields, ints_view, lines, lines_of, parse_i32_fields, rows_view};

verus! {

/// The report starts by rising.
pub open spec fn rising(s: Seq<i32>) -> bool {
    s.len() >= 2 && s[1] > s[0]
}

/// The step after level `i` changes it by one to three in the direction of the first step.
pub open spec fn gentle_step(s: Seq<i32>, i: int) -> bool {
    let d = s[i + 1] - s[i];
    if rising(s) {
        1 <= d <= 3
    } else {
        -3 <= d <= -1
    }
}

/// Each step changes the level by one to three, all in the direction of the first step.
pub open spec fn safe(s: Seq<i32>) -> bool {
    forall|i: int| 0 <= i < s.len() - 1 ==> #[trigger] gentle_step(s, i)
}

/// Safe, or safe once a single level is taken out.
pub open spec fn safe_with_dampener(s: Seq<i32>) -> bool {
    safe(s) || exists|i: int| 0 <= i < s.len() && #[trigger] safe(s.remove(i))
}

/// Whether the report is safe.
pub fn check_report(report: &[i32]) -> (r: bool)
    ensures
        r == safe(report@),
{
    let increasing = report.len() >= 2 && report[1] > report[0];
    if report.len() < 2 {
        return true;
    }
    let n = report.len();
    let mut i: usize = 0;
    while i < n - 1
        invariant
            n == report@.len(),
            n >= 2,
            i <= n - 1,
            increasing == rising(report@),
            forall|j: int| 0 <= j < i ==> #[trigger] gentle_step(report@, j),
        decreases report@.len() - i,
    {
        let d = report[i + 1] as i64 - report[i] as i64;
        let ok = if increasing {
            1 <= d && d <= 3
        } else {
            -3 <= d && d <= -1
        };
        if !ok {
            assert(!gentle_step(report@, i as int));
            return false;
        }
        i = i + 1;
    }
    true
}

/// The report without its `i`-th level.
fn without(report: &[i32], i: usize) -> (r: Vec<i32>)
    requires
        i < report@.len(),
    ensures
        r@ == report@.remove(i as int),
{
    let mut out: Vec<i32> = Vec::new();
    let mut j: usize = 0;
    while j < report.len()
        invariant
            i < report@.len(),
            j <= report@.len(),
            out@ == (if j <= i {
                report@.take(j as int)
            } else {
                report@.remove(i as int).take(j - 1)
            }),
        decreases report@.len() - j,
    {
        if j != i {
            out.push(report[j]);
        }
        j = j + 1;
        assert(out@ =~= (if j <= i {
            report@.take(j as int)
        } else {
            report@.remove(i as int).take(j - 1)
        }));
    }
    assert(out@ =~= report@.remove(i as int));
    out
}

/// Whether the report is safe, allowing one level to be taken out.
pub fn check_report_part2(report: &[i32]) -> (r: bool)
    ensures
        r == safe_with_dampener(report@),
{
    if check_report(report) {
        return true;
    }
    let mut i: usize = 0;
    while i < report.len()
        invariant
            !safe(report@),
            i <= report@.len(),
            forall|j: int| 0 <= j < i ==> !#[trigger] safe(report@.remove(j)),
        decreases report@.len() - i,
    {
        let v = without(report, i);
        if check_report(v.as_slice()) {
            return true;
        }
        i = i + 1;
    }
    false
}


/// Field separators within a report line.
pub open spec fn blanks() -> Seq<char> {
    seq![' ', '\t']
}

/// Reads one report per non-blank line, levels separated by blanks; `None` unless every
/// level is an `i32`.
pub fn parse_reports(text: &str) -> (r: Option<Vec<Vec<i32>>>)
    ensures
        match r {
            Some(rs) => rs@.len() == lines_of(text@).len() && forall|k: int|
                0 <= k < rs@.len() ==> all_i32(lines_of(text@)[k], blanks()) && ints_view(
                    #[trigger] rs@[k]@,
                ) == i32_fields(lines_of(text@)[k], blanks()),
            None => exists|k: int| 0 <= k < lines_of(text@).len() && !all_i32(#[trigger] lines_of(text@)[k], blanks()),
        },
{
    let rows = lines(text);
    let seps: Vec<char> = vec![' ', '\t'];
    assert(seps@ =~= blanks());
    let mut out: Vec<Vec<i32>> = Vec::new();
    let mut k: usize = 0;
    while k < rows.len()
        invariant
            rows_view(rows@) == lines_of(text@),
            seps@ == blanks(),
            k <= rows@.len(),
            out@.len() == k,
            forall|j: int| 0 <= j < k ==> #[trigger] all_i32(lines_of(text@)[j], blanks()),
            forall|j: int|
                0 <= j < k ==> ints_view(#[trigger] out@[j]@) == i32_fields(
                    lines_of(text@)[j],
                    blanks(),
                ),
        decreases rows@.len() - k,
    {
        assert(lines_of(text@)[k as int] == rows@[k as int]@);
        match parse_i32_fields(&rows[k], seps.as_slice()) {
            Some(v) => {
                assert(all_i32(lines_of(text@)[k as int], blanks()));
                assert(ints_view(v@) == i32_fields(lines_of(text@)[k as int], blanks()));
                let ghost before = out@;
                out.push(v);
                assert(out@[k as int]@ == v@);
                assert forall|j: int|
                    0 <= j < k + 1 implies ints_view(#[trigger] out@[j]@) == i32_fields(
                        lines_of(text@)[j],
                        blanks(),
                    ) by {
                    if j < k {
                        assert(out@[j] == before[j]);
                        assert(ints_view(before[j]@) == i32_fields(lines_of(text@)[j], blanks()));
                    }
                }
            },
            None => {
                return None;
            },
        }
        k = k + 1;
    }
    assert(rows_view(rows@).len() == rows@.len());
    assert forall|j: int| 0 <= j < out@.len() implies all_i32(lines_of(text@)[j], blanks()) && ints_view(
        #[trigger] out@[j]@,
    ) == i32_fields(lines_of(text@)[j], blanks()) by {
        assert(all_i32(lines_of(text@)[j], blanks()));
    }
    Some(out)
}

} // verus!
