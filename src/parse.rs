//! Reading one whole number from a line of text.
//!
//! A line holds a decimal numeral, possibly surrounded by whitespace. A time
//! value is unsigned and fits in a `u32`; a record count may carry a sign but
//! must lie in `0..=i32::MAX`.

use vstd::prelude::*;
use vstd::string::*;

verus! {

/// The characters that `char::is_whitespace` accepts: the Unicode
/// `White_Space` property.
pub open spec fn is_white(c: char) -> bool {
    let u = c as u32;
    (9 <= u && u <= 13) || u == 32 || u == 0x85 || u == 0xa0 || u == 0x1680 || (0x2000 <= u
        && u <= 0x200a) || u == 0x2028 || u == 0x2029 || u == 0x202f || u == 0x205f || u
        == 0x3000
}

/// An ASCII decimal digit.
pub open spec fn is_digit(c: char) -> bool {
    48 <= c as u32 && c as u32 <= 57
}

/// `s` without its leading whitespace.
pub open spec fn trim_start(s: Seq<char>) -> Seq<char>
    decreases s.len(),
{
    if s.len() > 0 && is_white(s[0]) {
        trim_start(s.drop_first())
    } else {
        s
    }
}

/// `s` without its trailing whitespace.
pub open spec fn trim_end(s: Seq<char>) -> Seq<char>
    decreases s.len(),
{
    if s.len() > 0 && is_white(s.last()) {
        trim_end(s.drop_last())
    } else {
        s
    }
}

/// `s` without whitespace at either end.
pub open spec fn trimmed(s: Seq<char>) -> Seq<char> {
    trim_end(trim_start(s))
}

/// A non-empty run of decimal digits.
pub open spec fn all_digits(d: Seq<char>) -> bool {
    d.len() > 0 && forall|i: int| 0 <= i < d.len() ==> is_digit(#[trigger] d[i])
}

/// The number that a run of decimal digits denotes.
pub open spec fn digits_value(d: Seq<char>) -> int
    decreases d.len(),
{
    if d.len() == 0 {
        0
    } else {
        digits_value(d.drop_last()) * 10 + (d.last() as u32 - 48)
    }
}

/// The value of an unsigned numeral: digits, optionally after a `+`.
pub open spec fn unsigned_value(t: Seq<char>) -> Option<int> {
    if all_digits(t) {
        Some(digits_value(t))
    } else if t.len() > 0 && t[0] == '+' && all_digits(t.drop_first()) {
        Some(digits_value(t.drop_first()))
    } else {
        None
    }
}

/// The value of a signed numeral: an unsigned one, or digits after a `-`.
pub open spec fn signed_value(t: Seq<char>) -> Option<int> {
    if t.len() > 0 && t[0] == '-' && all_digits(t.drop_first()) {
        Some(-digits_value(t.drop_first()))
    } else {
        unsigned_value(t)
    }
}

/// The record count that `line` gives, if it is a well-formed one.
pub open spec fn count_of(line: Seq<char>) -> Option<u32> {
    match signed_value(trimmed(line)) {
        Some(v) => if 0 <= v <= i32::MAX {
            Some(v as u32)
        } else {
            None
        },
        None => None,
    }
}

/// The time value that `line` gives, if it is a well-formed one.
pub open spec fn time_of(line: Seq<char>) -> Option<u32> {
    match unsigned_value(trimmed(line)) {
        Some(v) => if v <= u32::MAX {
            Some(v as u32)
        } else {
            None
        },
        None => None,
    }
}

proof fn lemma_digits_value_nonneg(d: Seq<char>)
    requires
        forall|i: int| 0 <= i < d.len() ==> is_digit(#[trigger] d[i]),
    ensures
        digits_value(d) >= 0,
    decreases d.len(),
{
    if d.len() > 0 {
        let p = d.drop_last();
        assert forall|i: int| 0 <= i < p.len() implies is_digit(#[trigger] p[i]) by {
            assert(p[i] == d[i]);
        }
        lemma_digits_value_nonneg(p);
        assert(is_digit(d[d.len() - 1]));
    }
}

fn is_white_char(c: char) -> (r: bool)
    ensures
        r == is_white(c),
{
    let u = c as u32;
    (9 <= u && u <= 13) || u == 32 || u == 0x85 || u == 0xa0 || u == 0x1680 || (0x2000 <= u
        && u <= 0x200a) || u == 0x2028 || u == 0x2029 || u == 0x202f || u == 0x205f || u
        == 0x3000
}

/// The character positions `lo..hi` of `s` that remain once whitespace is
/// taken off both ends.
fn trim_bounds(s: &str) -> (r: (usize, usize))
    ensures
        r.0 <= r.1 <= s@.len(),
        trimmed(s@) == s@.subrange(r.0 as int, r.1 as int),
{
    let n = s.unicode_len();
    let mut lo: usize = 0;
    assert(s@.subrange(0, n as int) =~= s@);
    while lo < n && is_white_char(s.get_char(lo))
        invariant
            lo <= n,
            n == s@.len(),
            trim_start(s@) == trim_start(s@.subrange(lo as int, n as int)),
        decreases n - lo,
    {
        assert(s@.subrange(lo as int, n as int).drop_first() =~= s@.subrange(
            lo + 1,
            n as int,
        ));
        lo = lo + 1;
    }
    assert(trim_start(s@) == s@.subrange(lo as int, n as int));
    let mut hi: usize = n;
    while hi > lo && is_white_char(s.get_char(hi - 1))
        invariant
            lo <= hi <= n,
            n == s@.len(),
            trim_start(s@) == s@.subrange(lo as int, n as int),
            trim_end(s@.subrange(lo as int, n as int)) == trim_end(
                s@.subrange(lo as int, hi as int),
            ),
        decreases hi,
    {
        assert(s@.subrange(lo as int, hi as int).drop_last() =~= s@.subrange(
            lo as int,
            hi - 1,
        ));
        hi = hi - 1;
    }
    assert(trim_end(s@.subrange(lo as int, hi as int)) == s@.subrange(lo as int, hi as int));
    (lo, hi)
}

/// The number that the characters `from..to` of `s` denote, when they are all
/// digits and that number is at most `cap`.
fn digits_at_most(s: &str, from: usize, to: usize, cap: u32) -> (r: Option<u32>)
    requires
        from <= to <= s@.len(),
    ensures
        ({
            let d = s@.subrange(from as int, to as int);
            match r {
                Some(v) => all_digits(d) && digits_value(d) == v && v <= cap,
                None => !(all_digits(d) && digits_value(d) <= cap),
            }
        }),
{
    if from == to {
        return None;
    }
    let ghost d = s@.subrange(from as int, to as int);
    let mut acc: u64 = 0;
    let mut over = false;
    let mut i: usize = from;
    while i < to
        invariant
            from <= i <= to <= s@.len(),
            d == s@.subrange(from as int, to as int),
            forall|k: int| from <= k < i ==> is_digit(#[trigger] s@[k]),
            !over ==> acc == digits_value(s@.subrange(from as int, i as int)) && acc <= cap,
            over ==> digits_value(s@.subrange(from as int, i as int)) > cap,
        decreases to - i,
    {
        let c = s.get_char(i);
        let u = c as u32;
        if u < 48 || u > 57 {
            assert(d[i - from] == c);
            assert(!is_digit(d[i - from]));
            return None;
        }
        let ghost p = s@.subrange(from as int, i + 1);
        assert(p.drop_last() =~= s@.subrange(from as int, i as int));
        assert(p.last() == c);
        if !over {
            let next = acc * 10 + (u - 48) as u64;
            if next > cap as u64 {
                over = true;
            } else {
                acc = next;
            }
        }
        i = i + 1;
    }
    assert(s@.subrange(from as int, i as int) =~= d);
    assert forall|k: int| 0 <= k < d.len() implies is_digit(#[trigger] d[k]) by {
        assert(d[k] == s@[from + k]);
    }
    if over {
        None
    } else {
        Some(acc as u32)
    }
}

/// Reads a record count: a decimal numeral with an optional sign, whitespace
/// around it allowed, whose value lies in `0..=i32::MAX`.
pub fn parse_count(line: &str) -> (r: Option<u32>)
    ensures
        r == count_of(line@),
{
    let (lo, hi) = trim_bounds(line);
    let ghost t = line@.subrange(lo as int, hi as int);
    if lo < hi && line.get_char(lo) == '-' {
        assert(t.drop_first() =~= line@.subrange(lo + 1, hi as int));
        assert(!is_digit(t[0]));
        let r = digits_at_most(line, lo + 1, hi, 0);
        proof {
            if all_digits(t.drop_first()) {
                lemma_digits_value_nonneg(t.drop_first());
            }
        }
        match r {
            Some(_) => Some(0),
            None => None,
        }
    } else if lo < hi && line.get_char(lo) == '+' {
        assert(t.drop_first() =~= line@.subrange(lo + 1, hi as int));
        assert(!is_digit(t[0]));
        digits_at_most(line, lo + 1, hi, 2147483647)
    } else {
        let r = digits_at_most(line, lo, hi, 2147483647);
        proof {
            if all_digits(t) {
                lemma_digits_value_nonneg(t);
            }
        }
        r
    }
}

/// Reads a time value: an unsigned decimal numeral, optionally after `+`,
/// whitespace around it allowed, that fits in a `u32`.
pub fn parse_time(line: &str) -> (r: Option<u32>)
    ensures
        r == time_of(line@),
{
    let (lo, hi) = trim_bounds(line);
    let ghost t = line@.subrange(lo as int, hi as int);
    if lo < hi && line.get_char(lo) == '+' {
        assert(t.drop_first() =~= line@.subrange(lo + 1, hi as int));
        assert(!is_digit(t[0]));
        let r = digits_at_most(line, lo + 1, hi, 4294967295);
        proof {
            if all_digits(t.drop_first()) {
                lemma_digits_value_nonneg(t.drop_first());
            }
        }
        r
    } else {
        let r = digits_at_most(line, lo, hi, 4294967295);
        proof {
            if all_digits(t) {
                lemma_digits_value_nonneg(t);
            }
        }
        r
    }
}

} // verus!
