//! Turning text into characters and lines.
use vstd::prelude::*;

verus! {

/// The characters of `s`, in order.
pub fn chars_of(s: &str) -> (r: Vec<char>)
    ensures
        r@ == s@,
{
    let mut out: Vec<char> = Vec::new();
    proof {
        vstd::string::axiom_spec_iter(s);
    }
    for ch in it: s.chars()
        invariant
            it.seq() == s@,
            out@ == it.seq().take(it.index() as int),
    {
        out.push(ch);
    }
    assert(out@ =~= s@);
    out
}

} // verus!

verus! {

/// Whether `c` ends a line.
pub open spec fn is_line_break(c: char) -> bool {
    c == '\n' || c == '\r'
}

/// The finished lines and the line being read after the first `i` characters of `s`.
/// Empty lines are dropped.
pub open spec fn line_scan(s: Seq<char>, i: int) -> (Seq<Seq<char>>, Seq<char>)
    decreases i,
{
    if i <= 0 {
        (Seq::empty(), Seq::empty())
    } else {
        let (done, cur) = line_scan(s, i - 1);
        if is_line_break(s[i - 1]) {
            if cur.len() == 0 {
                (done, cur)
            } else {
                (done.push(cur), Seq::empty())
            }
        } else {
            (done, cur.push(s[i - 1]))
        }
    }
}

/// The non-empty lines of `s`.
pub open spec fn lines_of(s: Seq<char>) -> Seq<Seq<char>> {
    let (done, cur) = line_scan(s, s.len() as int);
    if cur.len() == 0 {
        done
    } else {
        done.push(cur)
    }
}

/// The views of a list of character vectors.
pub open spec fn rows_view(rows: Seq<Vec<char>>) -> Seq<Seq<char>> {
    rows.map_values(|r: Vec<char>| r@)
}

/// The non-empty lines of `s`, split at line feeds and carriage returns.
pub fn lines(s: &str) -> (r: Vec<Vec<char>>)
    ensures
        rows_view(r@) == lines_of(s@),
{
    let chars = chars_of(s);
    let mut out: Vec<Vec<char>> = Vec::new();
    let mut cur: Vec<char> = Vec::new();
    let mut i: usize = 0;
    while i < chars.len()
        invariant
            chars@ == s@,
            i <= chars.len(),
            (rows_view(out@), cur@) == line_scan(s@, i as int),
        decreases chars.len() - i,
    {
        let c = chars[i];
        if c == '\n' || c == '\r' {
            if cur.len() > 0 {
                let ghost before = out@;
                out.push(cur);
                proof {
                    assert(rows_view(out@) =~= rows_view(before).push(cur@));
                }
                cur = Vec::new();
            }
        } else {
            cur.push(c);
        }
        i = i + 1;
    }
    if cur.len() > 0 {
        let ghost before = out@;
        out.push(cur);
        proof {
            assert(rows_view(out@) =~= rows_view(before).push(cur@));
        }
    }
    out
}

} // verus!

verus! {

/// The finished fields and the field being read after the first `i` characters of `s`,
/// where any character of `seps` separates fields. Empty fields are dropped.
pub open spec fn field_scan(s: Seq<char>, seps: Seq<char>, i: int) -> (Seq<Seq<char>>, Seq<char>)
    decreases i,
{
    if i <= 0 {
        (Seq::empty(), Seq::empty())
    } else {
        let (done, cur) = field_scan(s, seps, i - 1);
        if seps.contains(s[i - 1]) {
            if cur.len() == 0 {
                (done, cur)
            } else {
                (done.push(cur), Seq::empty())
            }
        } else {
            (done, cur.push(s[i - 1]))
        }
    }
}

/// The non-empty fields of `s` between separators from `seps`.
pub open spec fn fields_of(s: Seq<char>, seps: Seq<char>) -> Seq<Seq<char>> {
    let (done, cur) = field_scan(s, seps, s.len() as int);
    if cur.len() == 0 {
        done
    } else {
        done.push(cur)
    }
}

fn is_sep(c: char, seps: &[char]) -> (r: bool)
    ensures
        r == seps@.contains(c),
{
    let mut k: usize = 0;
    while k < seps.len()
        invariant
            k <= seps@.len(),
            forall|j: int| 0 <= j < k ==> seps@[j] != c,
        decreases seps@.len() - k,
    {
        if seps[k] == c {
            assert(seps@[k as int] == c);
            return true;
        }
        k = k + 1;
    }
    false
}

/// The non-empty fields of `s` between separators from `seps`.
pub fn fields(s: &Vec<char>, seps: &[char]) -> (r: Vec<Vec<char>>)
    ensures
        rows_view(r@) == fields_of(s@, seps@),
{
    let mut out: Vec<Vec<char>> = Vec::new();
    let mut cur: Vec<char> = Vec::new();
    let mut i: usize = 0;
    while i < s.len()
        invariant
            i <= s@.len(),
            (rows_view(out@), cur@) == field_scan(s@, seps@, i as int),
        decreases s@.len() - i,
    {
        let c = s[i];
        if is_sep(c, seps) {
            if cur.len() > 0 {
                let ghost before = out@;
                out.push(cur);
                proof {
                    assert(rows_view(out@) =~= rows_view(before).push(cur@));
                }
                cur = Vec::new();
            }
        } else {
            cur.push(c);
        }
        i = i + 1;
    }
    if cur.len() > 0 {
        let ghost before = out@;
        out.push(cur);
        proof {
            assert(rows_view(out@) =~= rows_view(before).push(cur@));
        }
    }
    out
}

pub open spec fn is_digit(c: char) -> bool {
    '0' <= c && c <= '9'
}

/// The decimal number written by the digits `s` (zero when empty).
pub open spec fn decimal(s: Seq<char>) -> nat
    decreases s.len(),
{
    if s.len() == 0 {
        0
    } else {
        decimal(s.drop_last()) * 10 + (s.last() as nat - '0' as nat) as nat
    }
}

/// The integer written by `s`: digits, with an optional leading minus sign.
pub open spec fn int_value(s: Seq<char>) -> Option<int> {
    if s.len() > 0 && forall|i: int| 0 <= i < s.len() ==> is_digit(#[trigger] s[i]) {
        Some(decimal(s) as int)
    } else if s.len() > 1 && s[0] == '-' && forall|i: int| 1 <= i < s.len() ==> is_digit(#[trigger] s[i]) {
        Some(-(decimal(s.drop_first()) as int))
    } else {
        None
    }
}

proof fn lemma_decimal_grows(s: Seq<char>, i: int)
    requires
        0 <= i <= s.len(),
        forall|j: int| 0 <= j < s.len() ==> is_digit(#[trigger] s[j]),
    ensures
        decimal(s.take(i)) <= decimal(s),
    decreases s.len() - i,
{
    if i < s.len() {
        let t = s.take(i + 1);
        assert(t.drop_last() =~= s.take(i));
        lemma_decimal_grows(s, i + 1);
    } else {
        assert(s.take(i) =~= s);
    }
}

/// The value of the digits `s[from..]` if it is at most `limit`.
fn digits_upto(s: &Vec<char>, from: usize, limit: u64) -> (r: Option<u64>)
    requires
        from <= s@.len(),
    ensures
        match r {
            Some(v) => (forall|i: int| from <= i < s@.len() ==> is_digit(#[trigger] s@[i])) && v == decimal(s@.skip(from as int)) && v <= limit,
            None => !(forall|i: int| from <= i < s@.len() ==> is_digit(#[trigger] s@[i])) || decimal(s@.skip(from as int)) > limit,
        },
{
    let ghost t = s@.skip(from as int);
    let mut v: u64 = 0;
    let mut i: usize = from;
    while i < s.len()
        invariant
            from <= i <= s@.len(),
            t == s@.skip(from as int),
            forall|j: int| from <= j < i ==> is_digit(#[trigger] s@[j]),
            v == decimal(t.take(i - from)),
            v <= limit,
        decreases s@.len() - i,
    {
        let c = s[i];
        if !('0' <= c && c <= '9') {
            assert(!is_digit(s@[i as int]));
            return None;
        }
        let d = (c as u32 - '0' as u32) as u64;
        assert(t.take(i + 1 - from).drop_last() =~= t.take(i - from));
        assert(t.take(i + 1 - from).last() == c);
        let next = match v.checked_mul(10) {
            Some(m) => m.checked_add(d),
            None => None,
        };
        match next {
            Some(n) if n <= limit => {
                v = n;
            },
            _ => {
                proof {
                    if forall|j: int| from <= j < s@.len() ==> is_digit(#[trigger] s@[j]) {
                        assert forall|j: int| 0 <= j < t.len() implies is_digit(#[trigger] t[j]) by {
                            assert(t[j] == s@[from + j]);
                        }
                        lemma_decimal_grows(t, i + 1 - from);
                    }
                }
                return None;
            },
        }
        i = i + 1;
    }
    assert(t.take(i - from) =~= t);
    Some(v)
}

/// The `i64` written by `s`, or `None` when `s` is not an integer or does not fit.
pub fn parse_i64(s: &Vec<char>) -> (r: Option<i64>)
    ensures
        match r {
            Some(v) => int_value(s@) == Some(v as int),
            None => match int_value(s@) {
                Some(v) => v < i64::MIN || v > i64::MAX,
                None => true,
            },
        },
{
    if s.len() == 0 {
        return None;
    }
    if s[0] == '-' {
        if s.len() == 1 {
            return None;
        }
        match digits_upto(s, 1, 0x8000_0000_0000_0000) {
            Some(v) => {
                proof {
                    assert(!is_digit(s@[0]));
                }
                if v == 0x8000_0000_0000_0000 {
                    Some(i64::MIN)
                } else {
                    Some(-(v as i64))
                }
            },
            None => {
                proof {
                    assert(!is_digit(s@[0]));
                    if s@.len() > 1 && forall|i: int| 1 <= i < s@.len() ==> is_digit(#[trigger] s@[i]) {
                        assert(s@.drop_first() =~= s@.skip(1));
                    }
                }
                None
            },
        }
    } else {
        match digits_upto(s, 0, 0x7fff_ffff_ffff_ffff) {
            Some(v) => {
                assert(s@.skip(0) =~= s@);
                Some(v as i64)
            },
            None => {
                assert(s@.skip(0) =~= s@);
                None
            },
        }
    }
}


/// The value `s` writes, read as zero when it writes none.
pub open spec fn value_or_zero(s: Seq<char>) -> int {
    match int_value(s) {
        Some(v) => v,
        None => 0,
    }
}

/// `s` writes an integer that fits an `i32`.
pub open spec fn is_i32_text(s: Seq<char>) -> bool {
    match int_value(s) {
        Some(v) => i32::MIN <= v <= i32::MAX,
        None => false,
    }
}

/// Every field of `line` between separators from `seps` writes an `i32`.
#[verifier::opaque]
pub open spec fn all_i32(line: Seq<char>, seps: Seq<char>) -> bool {
    forall|j: int| 0 <= j < fields_of(line, seps).len() ==> is_i32_text(#[trigger] fields_of(line, seps)[j])
}

/// The integers that the fields of `line` write.
pub open spec fn i32_fields(line: Seq<char>, seps: Seq<char>) -> Seq<int> {
    fields_of(line, seps).map_values(|f: Seq<char>| value_or_zero(f))
}

pub open spec fn ints_view(v: Seq<i32>) -> Seq<int> {
    v.map_values(|x: i32| x as int)
}

/// The integers written in the fields of `line`, if every field writes an `i32`.
pub fn parse_i32_fields(line: &Vec<char>, seps: &[char]) -> (r: Option<Vec<i32>>)
    ensures
        match r {
            Some(v) => all_i32(line@, seps@) && ints_view(v@) == i32_fields(line@, seps@),
            None => !all_i32(line@, seps@),
        },
{
    let fs = fields(line, seps);
    let ghost f = fields_of(line@, seps@);
    let mut out: Vec<i32> = Vec::new();
    let mut j: usize = 0;
    while j < fs.len()
        invariant
            rows_view(fs@) == f,
            f == fields_of(line@, seps@),
            j <= fs@.len(),
            forall|k: int| 0 <= k < j ==> is_i32_text(#[trigger] f[k]),
            ints_view(out@) == i32_fields(line@, seps@).take(j as int),
        decreases fs@.len() - j,
    {
        assert(f[j as int] == fs@[j as int]@);
        match parse_i64(&fs[j]) {
            Some(v) => {
                if v < -0x8000_0000 || v > 0x7fff_ffff {
                    proof {
                        reveal(all_i32);
                    }
                    return None;
                }
                let ghost before = out@;
                out.push(v as i32);
                assert(ints_view(out@) =~= ints_view(before).push(v as int));
                assert(i32_fields(line@, seps@).take(j + 1) =~= i32_fields(line@, seps@).take(j as int).push(v as int));
            },
            None => {
                proof {
                    reveal(all_i32);
                }
                return None;
            },
        }
        j = j + 1;
    }
    assert(i32_fields(line@, seps@).take(j as int) =~= i32_fields(line@, seps@));
    proof {
        reveal(all_i32);
    }
    Some(out)
}

} // verus!
