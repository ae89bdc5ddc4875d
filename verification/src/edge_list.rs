//! The text form of an edge list: one `u,v` line for each edge, below a
//! header line.

use crate::error::EstimateError;
use vstd::prelude::*;

verus! {

/// The characters that a line may have around its edge: the white space of
/// Unicode.
pub open spec fn is_whitespace(c: char) -> bool {
    let n = c as u32;
    ||| 0x09 <= n <= 0x0d
    ||| n == 0x20
    ||| n == 0x85
    ||| n == 0xa0
    ||| n == 0x1680
    ||| 0x2000 <= n <= 0x200a
    ||| n == 0x2028
    ||| n == 0x2029
    ||| n == 0x202f
    ||| n == 0x205f
    ||| n == 0x3000
}

/// `s` without the white space at its start.
pub open spec fn trim_start(s: Seq<char>) -> Seq<char>
    decreases s.len(),
{
    if s.len() > 0 && is_whitespace(s.first()) {
        trim_start(s.drop_first())
    } else {
        s
    }
}

/// `s` without the white space at its end.
pub open spec fn trim_end(s: Seq<char>) -> Seq<char>
    decreases s.len(),
{
    if s.len() > 0 && is_whitespace(s.last()) {
        trim_end(s.drop_last())
    } else {
        s
    }
}

/// `s` without the white space at either end.
pub open spec fn trimmed(s: Seq<char>) -> Seq<char> {
    trim_end(trim_start(s))
}

/// One of the ten decimal digits.
pub open spec fn is_digit(c: char) -> bool {
    '0' <= c <= '9'
}

/// The number that a string of decimal digits stands for.
pub open spec fn digits_value(s: Seq<char>) -> nat
    decreases s.len(),
{
    if s.len() == 0 {
        0
    } else {
        digits_value(s.drop_last()) * 10 + (s.last() as u32 - '0' as u32) as nat
    }
}

/// Every character of `s` is a digit.
pub open spec fn all_digits(s: Seq<char>) -> bool {
    forall|i: int| 0 <= i < s.len() ==> is_digit(#[trigger] s[i])
}

/// `s` without the plus sign that it may begin with.
pub open spec fn unsigned_part(s: Seq<char>) -> Seq<char> {
    if s.len() > 0 && s[0] == '+' {
        s.drop_first()
    } else {
        s
    }
}

/// The number that `s` is the decimal writing of: one or more digits, with
/// or without a plus sign before them, and a value that fits a `usize`.
pub open spec fn number_of(s: Seq<char>) -> Option<usize> {
    let digits = unsigned_part(s);
    if digits.len() > 0 && all_digits(digits) && digits_value(digits) <= usize::MAX {
        Some(digits_value(digits) as usize)
    } else {
        None
    }
}

/// The one comma of `t` stands at `c`.
pub open spec fn is_only_comma(t: Seq<char>, c: int) -> bool {
    &&& 0 <= c < t.len()
    &&& t[c] == ','
    &&& forall|i: int| 0 <= i < t.len() && i != c ==> #[trigger] t[i] != ','
}

/// The edge that a line of text stands for: two numbers with one comma
/// between them, and white space at most around the whole.
pub open spec fn edge_of_line(line: Seq<char>) -> Option<(usize, usize)> {
    let t = trimmed(line);
    if exists|c: int| is_only_comma(t, c) {
        let c = choose|c: int| is_only_comma(t, c);
        match (number_of(t.take(c)), number_of(t.skip(c + 1))) {
            (Some(u), Some(v)) => Some((u, v)),
            _ => None,
        }
    } else {
        None
    }
}

/// The edges that the lines stand for, in the order of the lines; a line
/// that stands for no edge is passed over.
pub open spec fn edges_of_lines(lines: Seq<Seq<char>>) -> Seq<(usize, usize)>
    decreases lines.len(),
{
    if lines.len() == 0 {
        Seq::empty()
    } else {
        match edge_of_line(lines.last()) {
            Some(edge) => edges_of_lines(lines.drop_last()).push(edge),
            None => edges_of_lines(lines.drop_last()),
        }
    }
}

/// The lines after the first, which is taken for a header.
pub open spec fn data_lines(lines: Seq<Seq<char>>) -> Seq<Seq<char>> {
    if lines.len() == 0 {
        lines
    } else {
        lines.skip(1)
    }
}

/// What the lines of a text give: the edges after the header, or
/// `EmptyInput` where there is none.
pub open spec fn edge_list_of(lines: Seq<Seq<char>>) -> Result<Seq<(usize, usize)>, EstimateError> {
    let edges = edges_of_lines(data_lines(lines));
    if edges.len() == 0 {
        Err(EstimateError::EmptyInput)
    } else {
        Ok(edges)
    }
}

/// The result holds the edges, or the error, that `expected` holds.
pub open spec fn same_edges(
    result: Result<Vec<(usize, usize)>, EstimateError>,
    expected: Result<Seq<(usize, usize)>, EstimateError>,
) -> bool {
    match (result, expected) {
        (Ok(edges), Ok(wanted)) => edges@ == wanted,
        (Err(e), Err(wanted)) => e == wanted,
        _ => false,
    }
}

/// The digits read so far never stand for more than all of them do.
proof fn lemma_digits_value_grows(s: Seq<char>, k: int)
    requires
        0 <= k <= s.len(),
        all_digits(s),
    ensures
        digits_value(s.take(k)) <= digits_value(s),
    decreases s.len() - k,
{
    if k < s.len() {
        lemma_digits_value_grows(s, k + 1);
        assert(s.take(k + 1).drop_last() == s.take(k));
        assert(is_digit(s[k]));
    } else {
        assert(s.take(k) == s);
    }
}

/// The characters of a line.
fn chars_of(line: &str) -> (chars: Vec<char>)
    ensures
        chars@ == line@,
{
    let mut chars: Vec<char> = Vec::new();
    for c in it: line.chars()
        invariant
            it.seq() == line@,
            chars@ == it.seq().take(it.index() as int),
    {
        chars.push(c);
    }
    chars
}

/// Whether `c` is white space.
fn is_whitespace_char(c: char) -> (b: bool)
    ensures
        b == is_whitespace(c),
{
    let n = c as u32;
    (n >= 0x09 && n <= 0x0d) || n == 0x20 || n == 0x85 || n == 0xa0 || n == 0x1680 || (n >= 0x2000
        && n <= 0x200a) || n == 0x2028 || n == 0x2029 || n == 0x202f || n == 0x205f || n == 0x3000
}

/// Reads the characters from `from` up to `to` as a number.
fn parse_number(chars: &Vec<char>, from: usize, to: usize) -> (number: Option<usize>)
    requires
        from <= to <= chars@.len(),
    ensures
        number == number_of(chars@.subrange(from as int, to as int)),
{
    let ghost s = chars@.subrange(from as int, to as int);
    let mut i: usize = from;
    if i < to && chars[i] == '+' {
        i += 1;
    }
    let first: usize = i;
    let ghost digits = chars@.subrange(first as int, to as int);
    assert(digits == unsigned_part(s));
    if i == to {
        return None;
    }
    let mut value: usize = 0;
    while i < to
        invariant
            from <= first <= i <= to <= chars@.len(),
            s == chars@.subrange(from as int, to as int),
            digits == chars@.subrange(first as int, to as int),
            digits.len() > 0,
            digits == unsigned_part(s),
            forall|k: int| 0 <= k < i - first ==> is_digit(#[trigger] digits[k]),
            value == digits_value(digits.take(i - first)),
        decreases to - i,
    {
        let c = chars[i];
        if !(c >= '0' && c <= '9') {
            assert(!is_digit(digits[i - first]));
            return None;
        }
        let d: usize = (c as u32 - '0' as u32) as usize;
        proof {
            assert(digits.take(i - first + 1).drop_last() == digits.take(i - first));
            assert(digits.take(i - first + 1).last() == c);
            assert(digits_value(digits.take(i - first + 1)) == value * 10 + d);
        }
        if value > (usize::MAX - d) / 10 {
            proof {
                if all_digits(digits) {
                    lemma_digits_value_grows(digits, i - first + 1);
                }
            }
            return None;
        }
        value = value * 10 + d;
        i += 1;
    }
    assert(digits.take(i - first) == digits);
    Some(value)
}

/// Reads one line of an edge list: two vertex ids with a comma between
/// them. White space around the line is passed over; anything else that
/// is not of this form gives no edge.
pub fn parse_edge_line(line: &str) -> (edge: Option<(usize, usize)>)
    ensures
        edge == edge_of_line(line@),
{
    let chars = chars_of(line);
    let n = chars.len();
    let mut lo: usize = 0;
    assert(chars@.skip(0) == chars@);
    while lo < n && is_whitespace_char(chars[lo])
        invariant
            lo <= n == chars@.len(),
            trim_start(chars@) == trim_start(chars@.skip(lo as int)),
        decreases n - lo,
    {
        assert(chars@.skip(lo as int).drop_first() == chars@.skip(lo as int + 1));
        lo += 1;
    }
    let ghost rest = chars@.skip(lo as int);
    assert(trim_start(chars@) == rest);
    let mut hi: usize = n;
    while hi > lo && is_whitespace_char(chars[hi - 1])
        invariant
            lo <= hi <= n == chars@.len(),
            rest == chars@.skip(lo as int),
            trim_end(rest) == trim_end(chars@.subrange(lo as int, hi as int)),
        decreases hi - lo,
    {
        assert(chars@.subrange(lo as int, hi as int).drop_last() == chars@.subrange(
            lo as int,
            hi as int - 1,
        ));
        hi -= 1;
    }
    let ghost t = chars@.subrange(lo as int, hi as int);
    assert(trimmed(line@) == t) by {
        assert(rest == chars@.subrange(lo as int, n as int));
    }
    let mut c: usize = lo;
    while c < hi && chars[c] != ','
        invariant
            lo <= c <= hi <= chars@.len(),
            t == chars@.subrange(lo as int, hi as int),
            trimmed(line@) == t,
            forall|k: int| 0 <= k < c - lo ==> #[trigger] t[k] != ',',
        decreases hi - c,
    {
        c += 1;
    }
    if c == hi {
        assert(forall|x: int| !is_only_comma(t, x));
        return None;
    }
    let mut k: usize = c + 1;
    while k < hi
        invariant
            lo <= c < k <= hi <= chars@.len(),
            t == chars@.subrange(lo as int, hi as int),
            trimmed(line@) == t,
            t[c - lo] == ',',
            forall|m: int| 0 <= m < k - lo && m != c - lo ==> #[trigger] t[m] != ',',
        decreases hi - k,
    {
        if chars[k] == ',' {
            assert(t[k - lo] == ',');
            assert forall|x: int| !is_only_comma(t, x) by {
                if is_only_comma(t, x) {
                    if x == c - lo {
                        assert(t[k - lo] != ',');
                    } else {
                        assert(t[c - lo] != ',');
                    }
                }
            }
            return None;
        }
        k += 1;
    }
    assert(is_only_comma(t, c - lo));
    proof {
        let chosen = choose|x: int| is_only_comma(t, x);
        if chosen != c - lo {
            assert(t[c - lo] != ',');
        }
        assert(t.take(c - lo) == chars@.subrange(lo as int, c as int));
        assert(t.skip(c - lo + 1) == chars@.subrange(c as int + 1, hi as int));
    }
    let first = parse_number(&chars, lo, c);
    let second = parse_number(&chars, c + 1, hi);
    match (first, second) {
        (Some(u), Some(v)) => Some((u, v)),
        _ => None,
    }
}

/// Reads an edge list from the lines of a text. The first line is taken
/// for a header and passed over, and so is every line that is not an edge.
/// A text without a single edge is refused.
pub fn parse_edge_list(lines: &Vec<String>) -> (result: Result<Vec<(usize, usize)>, EstimateError>)
    ensures
        same_edges(result, edge_list_of(lines.deep_view())),
{
    let mut edges: Vec<(usize, usize)> = Vec::new();
    let ghost all = lines.deep_view();
    if lines.len() == 0 {
        return Err(EstimateError::EmptyInput);
    }
    let ghost data = all.skip(1);
    let mut k: usize = 1;
    while k < lines.len()
        invariant
            1 <= k <= lines@.len(),
            all == lines.deep_view(),
            all.len() == lines@.len(),
            data == all.skip(1),
            edges@ == edges_of_lines(data.take(k - 1)),
        decreases lines@.len() - k,
    {
        let parsed = parse_edge_line(lines[k].as_str());
        proof {
            assert(data.take(k as int).drop_last() == data.take(k - 1));
            assert(data.take(k as int).last() == all[k as int]);
            assert(all[k as int] == lines@[k as int]@);
        }
        match parsed {
            Some(edge) => {
                edges.push(edge);
            },
            None => {},
        }
        k += 1;
    }
    assert(data.take(k - 1) == data);
    if edges.len() == 0 {
        Err(EstimateError::EmptyInput)
    } else {
        Ok(edges)
    }
}

/// Reads an edge list from what was read of its source: the lines of the
/// text, or nothing where the source could not be opened.
pub fn read_edge_list(source: &Option<Vec<String>>) -> (result: Result<
    Vec<(usize, usize)>,
    EstimateError,
>)
    ensures
        match source {
            Some(lines) => same_edges(result, edge_list_of(lines.deep_view())),
            None => result == Err::<Vec<(usize, usize)>, EstimateError>(
                EstimateError::InputUnavailable,
            ),
        },
{
    match source {
        Some(lines) => parse_edge_list(lines),
        None => Err(EstimateError::InputUnavailable),
    }
}

} // verus!
