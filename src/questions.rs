//! Turning a generated response into a list of questions: one per line that, trimmed and
//! stripped of its leading numbering, ends with a question mark.
use vstd::prelude::*;
use crate::wrap::{is_ws, is_whitespace_char, strings_view};
use crate::document::{split_lines, split_paragraphs};

verus! {

/// The most questions kept from one response.
pub const MAX_QUESTIONS: usize = 90;

pub open spec fn is_ascii(c: char) -> bool {
    (c as u32) < 128
}

/// `c` is one of `'0'` to `'9'`.
pub open spec fn is_ascii_digit(c: char) -> bool {
    48 <= (c as u32) && (c as u32) <= 57
}

/// Whether `char::is_numeric` holds of `c`.
pub uninterp spec fn numeric_of(c: char) -> bool;

/// Relies on `char::is_numeric`: the result depends on the character alone, and among
/// ASCII characters only the digits `'0'` to `'9'` have a numeric general category.
#[verifier::external_body]
fn is_numeric_char(c: char) -> (r: bool)
    ensures
        r == numeric_of(c),
        is_ascii(c) ==> r == is_ascii_digit(c),
{
    c.is_numeric()
}

/// `s` without its leading whitespace.
pub open spec fn skip_ws_start(s: Seq<char>) -> Seq<char>
    decreases s.len(),
{
    if s.len() > 0 && is_ws(s[0]) {
        skip_ws_start(s.drop_first())
    } else {
        s
    }
}

/// `s` without its trailing whitespace.
pub open spec fn skip_ws_end(s: Seq<char>) -> Seq<char>
    decreases s.len(),
{
    if s.len() > 0 && is_ws(s.last()) {
        skip_ws_end(s.drop_last())
    } else {
        s
    }
}

/// `s` without leading and trailing whitespace.
pub open spec fn trim(s: Seq<char>) -> Seq<char> {
    skip_ws_end(skip_ws_start(s))
}

/// A character of a leading list number: a numeric character, a dot or a space.
pub open spec fn is_numbering(c: char) -> bool {
    numeric_of(c) || c == '.' || c == ' '
}

/// `s` without its leading list number.
pub open spec fn strip_numbering(s: Seq<char>) -> Seq<char>
    decreases s.len(),
{
    if s.len() > 0 && is_numbering(s[0]) {
        strip_numbering(s.drop_first())
    } else {
        s
    }
}

/// The question on `line`, if it holds one: the line trimmed and stripped of its leading
/// number, when that ends with `'?'`.
pub open spec fn question_of(line: Seq<char>) -> Option<Seq<char>> {
    let c = strip_numbering(trim(line));
    if c.len() > 0 && c.last() == '?' {
        Some(c)
    } else {
        None
    }
}

/// The questions on `lines`, in order.
pub open spec fn questions_of(lines: Seq<Seq<char>>) -> Seq<Seq<char>>
    decreases lines.len(),
{
    if lines.len() == 0 {
        seq![]
    } else {
        let prev = questions_of(lines.drop_last());
        match question_of(lines.last()) {
            Some(q) => prev.push(q),
            None => prev,
        }
    }
}

/// The first `MAX_QUESTIONS` questions on the lines of `text`.
pub open spec fn parse_questions_spec(text: Seq<char>) -> Seq<Seq<char>> {
    let qs = questions_of(split_lines(text));
    qs.take(if qs.len() <= MAX_QUESTIONS { qs.len() as int } else { MAX_QUESTIONS as int })
}

/// Start and end of `s` without leading and trailing whitespace.
fn trim_bounds(s: &str) -> (r: (usize, usize))
    ensures
        r.0 <= r.1 <= s@.len(),
        s@.subrange(r.0 as int, r.1 as int) == trim(s@),
{
    let n = s.unicode_len();
    let mut a: usize = 0;
    proof {
        assert(s@.subrange(0, n as int) =~= s@);
    }
    while a < n && is_whitespace_char(s.get_char(a))
        invariant
            n == s@.len(),
            a <= n,
            skip_ws_start(s@) == skip_ws_start(s@.subrange(a as int, n as int)),
        decreases n - a,
    {
        proof {
            assert(s@.subrange(a as int, n as int).drop_first() =~= s@.subrange(a + 1, n as int));
        }
        a = a + 1;
    }
    proof {
        assert(skip_ws_start(s@) == s@.subrange(a as int, n as int));
    }
    let mut e: usize = n;
    while e > a && is_whitespace_char(s.get_char(e - 1))
        invariant
            n == s@.len(),
            a <= e <= n,
            trim(s@) == skip_ws_end(s@.subrange(a as int, e as int)),
        decreases e,
    {
        proof {
            assert(s@.subrange(a as int, e as int).drop_last() =~= s@.subrange(a as int, e - 1));
        }
        e = e - 1;
    }
    (a, e)
}

/// Index in `s`, from `from`, of the first character that is not part of a list number.
fn numbering_end(s: &str, from: usize, to: usize) -> (r: usize)
    requires
        from <= to <= s@.len(),
    ensures
        from <= r <= to,
        s@.subrange(r as int, to as int) == strip_numbering(s@.subrange(from as int, to as int)),
{
    let mut a = from;
    let mut done = false;
    while !done && a < to
        invariant
            from <= a <= to,
            to <= s@.len(),
            done ==> a < to && !is_numbering(s@[a as int]),
            strip_numbering(s@.subrange(from as int, to as int)) == strip_numbering(
                s@.subrange(a as int, to as int),
            ),
        decreases to - a + if done { 0int } else { 1int },
    {
        let c = s.get_char(a);
        if is_numeric_char(c) || c == '.' || c == ' ' {
            proof {
                assert(s@.subrange(a as int, to as int).drop_first() =~= s@.subrange(a + 1, to as int));
            }
            a = a + 1;
        } else {
            done = true;
        }
    }
    a
}

/// The question on `line`, if it holds one.
pub fn question_on_line(line: &str) -> (r: Option<String>)
    ensures
        r matches Some(q) ==> question_of(line@) == Some(q@),
        r is None ==> question_of(line@) is None,
{
    let (a, e) = trim_bounds(line);
    let b = numbering_end(line, a, e);
    if b < e && line.get_char(e - 1) == '?' {
        Some(String::from_str(line.substring_char(b, e)))
    } else {
        None
    }
}

/// The questions in a generated response: each line, trimmed and stripped of a leading
/// list number, that ends with `'?'`; at most `MAX_QUESTIONS`, in order.
pub fn parse_questions(response: &str) -> (r: Vec<String>)
    ensures
        strings_view(r@) == parse_questions_spec(response@),
{
    let lines = split_paragraphs(response);
    let ghost ls = split_lines(response@);
    let mut out: Vec<String> = Vec::new();
    let mut i: usize = 0;
    while i < lines.len()
        invariant
            ls == strings_view(lines@),
            i <= lines@.len(),
            strings_view(out@) == ({
                let qs = questions_of(ls.take(i as int));
                qs.take(
                    if qs.len() <= MAX_QUESTIONS {
                        qs.len() as int
                    } else {
                        MAX_QUESTIONS as int
                    },
                )
            }),
        decreases lines@.len() - i,
    {
        proof {
            assert(ls.take(i + 1).drop_last() =~= ls.take(i as int));
            assert(ls.take(i + 1).last() == lines@[i as int]@);
        }
        let ghost prev = questions_of(ls.take(i as int));
        let ghost before = out@;
        match question_on_line(lines[i].as_str()) {
            Some(q) => {
                if out.len() < MAX_QUESTIONS {
                    out.push(q);
                    proof {
                        assert(strings_view(out@) =~= strings_view(before).push(out@[out@.len() - 1]@));
                    }
                }
                proof {
                    let next = questions_of(ls.take(i + 1));
                    assert(next == prev.push(q@));
                    if prev.len() < MAX_QUESTIONS {
                        assert(next.take(next.len() as int) =~= prev.push(q@));
                    } else {
                        assert(next.take(MAX_QUESTIONS as int) =~= prev.take(MAX_QUESTIONS as int));
                    }
                }
            },
            None => {},
        }
        i = i + 1;
    }
    proof {
        assert(ls.take(lines@.len() as int) =~= ls);
    }
    out
}

} // verus!
