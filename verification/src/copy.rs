//! Rows of comma-separated values.
//!
//! A row is `start,end,value`. Blank lines and lines that begin with `#` are passed over.

use crate::ast::LiteralV;
use crate::error::{same_view, ExecError, ExecErrorV};
use crate::floats::{FloatTable, FloatTaskV};
use crate::lex::{is_ascii_digit, number_of};
use crate::ops::{done, literal_value};
use crate::parser::{literal, parse_literal_in};
use crate::text::{
    all_digits, all_white, decimal, digits_value, end_trimmed, from_chars,
    is_digit, push_wide_decimal, start_trimmed, to_chars, trim,
};
use crate::value::{Value, ValueV};
use vstd::prelude::*;

verus! {

/// How `{:?}` writes a text: quoted, with escapes.
pub uninterp spec fn debug_form(s: Seq<char>) -> Seq<char>;

/// `format!` with `{:?}` on a `str`: the text in quotes, with quotes, backslashes and
/// characters that do not print escaped.
#[verifier::external_body]
fn debug_text(s: &str) -> (r: String)
    ensures
        r@ == debug_form(s@),
{
    format!("{:?}", s)
}

/// Where a character first stands in a text; the length of the text where it does not.
pub open spec fn find(s: Seq<char>, c: char) -> nat
    decreases s.len(),
{
    if s.len() == 0 || s[0] == c {
        0
    } else {
        1 + find(s.drop_first(), c)
    }
}

/// The number that a text writes in decimal, with or without a sign.
pub open spec fn whole_number(s: Seq<char>) -> Option<i64> {
    let signed = s.len() > 0 && (s[0] == '-' || s[0] == '+');
    let digits = if signed {
        s.skip(1)
    } else {
        s
    };
    let v = if signed && s[0] == '-' {
        -digits_value(digits)
    } else {
        digits_value(digits) as int
    };
    if digits.len() > 0 && all_digits(digits) && i64::MIN <= v <= i64::MAX {
        Some(v as i64)
    } else {
        None
    }
}

/// The value of a literal.
pub open spec fn literal_meaning(l: LiteralV, floats: &FloatTable) -> Result<ValueV, ExecErrorV> {
    match l {
        LiteralV::Null => Ok(ValueV::Null),
        LiteralV::Bool(b) => Ok(ValueV::Bool(b)),
        LiteralV::Str(s) => Ok(ValueV::Str(s)),
        LiteralV::Int(i) => Ok(ValueV::Int(i)),
        LiteralV::Float(s) => match done(floats, FloatTaskV::Parse(s)) {
            Ok(bits) => Ok(ValueV::Float(bits)),
            Err(e) => Err(e),
        },
    }
}

pub type RowV = (i64, i64, ValueV);

pub type Row = (i64, i64, Value);

/// A complaint about a line.
pub open spec fn bad_line(number: nat, what: Seq<char>) -> ExecErrorV {
    ExecErrorV::Io("line "@ + decimal(number) + ": "@ + what)
}

/// The text is one literal.
pub open spec fn is_literal(s: Seq<char>) -> bool {
    literal(trim(s)) is Some && all_white((literal(trim(s))->0).1)
}

/// What a line says: a row, or nothing.
pub open spec fn row_of(line: Seq<char>, number: nat, floats: &FloatTable) -> Result<
    Option<RowV>,
    ExecErrorV,
> {
    let t = trim(line);
    let a = find(t, ',') as int;
    let rest = t.skip(a + 1);
    let b = find(rest, ',') as int;
    let first = trim(t.take(a));
    let second = trim(rest.take(b));
    let third = rest.skip(b + 1);
    if t.len() == 0 || t[0] == '#' {
        Ok(None)
    } else if a == t.len() || b == rest.len() {
        Err(bad_line(number, "expected start,end,value"@))
    } else if whole_number(first) is None {
        Err(bad_line(number, "invalid start "@ + debug_form(first)))
    } else if whole_number(second) is None {
        Err(bad_line(number, "invalid end "@ + debug_form(second)))
    } else if !is_literal(third) {
        Err(bad_line(number, "cannot parse value "@ + debug_form(trim(third))))
    } else {
        match literal_meaning((literal(trim(third))->0).0, floats) {
            Err(e) => Err(e),
            Ok(v) => Ok(Some((whole_number(first)->0, whole_number(second)->0, v))),
        }
    }
}

/// The rows of a text, whose first line has the given number.
pub open spec fn rows_of(s: Seq<char>, number: nat, floats: &FloatTable) -> Result<
    Seq<RowV>,
    ExecErrorV,
>
    decreases s.len(),
{
    let k = find(s, '\n') as int;
    match row_of(s.take(k), number, floats) {
        Err(e) => Err(e),
        Ok(row) => {
            let here = match row {
                Some(row) => seq![row],
                None => Seq::empty(),
            };
            if k >= s.len() {
                Ok(here)
            } else {
                match rows_of(s.skip(k + 1), number + 1, floats) {
                    Err(e) => Err(e),
                    Ok(rest) => Ok(here + rest),
                }
            }
        },
    }
}

pub open spec fn rows_view(rows: Seq<Row>) -> Seq<RowV> {
    rows.map_values(|row: Row| (row.0, row.1, row.2@))
}

/// Where `c` first stands in `text[from..to]`; `to` where it does not.
pub fn find_char(text: &Vec<char>, from: usize, to: usize, c: char) -> (r: usize)
    requires
        from <= to <= text@.len(),
    ensures
        from <= r <= to,
        find(text@.subrange(from as int, to as int), c) == r - from,
{
    let mut i: usize = from;
    while i < to && text[i] != c
        invariant
            from <= i <= to <= text@.len(),
            find(text@.subrange(from as int, to as int), c) == i - from + find(
                text@.subrange(i as int, to as int),
                c,
            ),
        decreases to - i,
    {
        assert(text@.subrange(i as int, to as int).drop_first() =~= text@.subrange(
            i + 1,
            to as int,
        ));
        i = i + 1;
    }
    i
}

/// The number that `text[from..to]` writes.
fn parse_whole(text: &Vec<char>, from: usize, to: usize) -> (r: Option<i64>)
    requires
        from <= to <= text@.len(),
    ensures
        r == whole_number(text@.subrange(from as int, to as int)),
{
    let ghost s = text@.subrange(from as int, to as int);
    let signed: bool = from < to && (text[from] == '-' || text[from] == '+');
    let negative: bool = signed && text[from] == '-';
    let d: usize = if signed {
        from + 1
    } else {
        from
    };
    let ghost digits = text@.subrange(d as int, to as int);
    proof {
        assert(if signed {
            s.skip(1) =~= digits
        } else {
            s =~= digits
        });
    }
    if d == to {
        return None;
    }
    let mut i: usize = d;
    while i < to
        invariant
            from <= d <= i <= to <= text@.len(),
            digits == text@.subrange(d as int, to as int),
            digits == if signed {
                s.skip(1)
            } else {
                s
            },
            signed == (s.len() > 0 && (s[0] == '-' || s[0] == '+')),
            s == text@.subrange(from as int, to as int),
            forall|k: int| 0 <= k < i - d ==> is_digit(#[trigger] digits[k]),
        decreases to - i,
    {
        if !is_ascii_digit(text[i]) {
            assert(!is_digit(digits[i - d]));
            return None;
        }
        i = i + 1;
    }
    match number_of(text, d, to) {
        None => None,
        Some(m) => if negative {
            if m <= 9223372036854775807u64 {
                Some(0 - (m as i64))
            } else if m == 9223372036854775808u64 {
                Some(i64::MIN)
            } else {
                None
            }
        } else if m <= 9223372036854775807u64 {
            Some(m as i64)
        } else {
            None
        },
    }
}

fn line_error(number: u128, what: &str, quote: Option<&str>) -> (r: ExecError)
    ensures
        r@ == bad_line(
            number as nat,
            match quote {
                Some(q) => what@ + debug_form(q@),
                None => what@,
            },
        ),
{
    let mut out = String::from_str("line ");
    push_wide_decimal(&mut out, number);
    out.append(": ");
    out.append(what);
    if let Some(q) = quote {
        let d = debug_text(q);
        out.append(d.as_str());
        proof {
            assert(out@ =~= "line "@ + decimal(number as nat) + ": "@ + (what@ + debug_form(q@)));
        }
    }
    ExecError::Io(out)
}

/// What `text[from..to]` says: a row, or nothing.
fn parse_row(
    text: &Vec<char>,
    from: usize,
    to: usize,
    number: u128,
    floats: &FloatTable,
) -> (r: Result<Option<Row>, ExecError>)
    requires
        from <= to <= text@.len(),
    ensures
        same_view(
            r,
            |row: Option<Row>|
                match row {
                    Some(row) => Some((row.0, row.1, row.2@)),
                    None => None,
                },
            row_of(text@.subrange(from as int, to as int), number as nat, floats),
        ),
{
    let i: usize = start_trimmed(text, from, to);
    let j: usize = end_trimmed(text, i, to);
    let ghost t = text@.subrange(i as int, j as int);
    if i == j || text[i] == '#' {
        return Ok(None);
    }
    let a: usize = find_char(text, i, j, ',');
    if a == j {
        return Err(line_error(number, "expected start,end,value", None));
    }
    let b: usize = find_char(text, a + 1, j, ',');
    let ghost rest = t.skip(a - i + 1);
    proof {
        assert(rest =~= text@.subrange(a + 1, j as int));
    }
    if b == j {
        return Err(line_error(number, "expected start,end,value", None));
    }
    let s0: usize = start_trimmed(text, i, a);
    let s1: usize = end_trimmed(text, s0, a);
    let e0: usize = start_trimmed(text, a + 1, b);
    let e1: usize = end_trimmed(text, e0, b);
    proof {
        assert(t.take(a - i) =~= text@.subrange(i as int, a as int));
        assert(rest.take(b - a - 1) =~= text@.subrange(a + 1, b as int));
        assert(rest.skip(b - a) =~= text@.subrange(b + 1, j as int));
    }
    let start: i64 = match parse_whole(text, s0, s1) {
        Some(n) => n,
        None => {
            let shown = from_chars(text, s0, s1);
            return Err(line_error(number, "invalid start ", Some(shown.as_str())));
        },
    };
    let end: i64 = match parse_whole(text, e0, e1) {
        Some(n) => n,
        None => {
            let shown = from_chars(text, e0, e1);
            return Err(line_error(number, "invalid end ", Some(shown.as_str())));
        },
    };
    match parse_literal_in(text, b + 1, j) {
        None => {
            let v0: usize = start_trimmed(text, b + 1, j);
            let v1: usize = end_trimmed(text, v0, j);
            let shown = from_chars(text, v0, v1);
            Err(line_error(number, "cannot parse value ", Some(shown.as_str())))
        },
        Some(l) => match literal_value(&l, floats) {
            Ok(v) => Ok(Some((start, end, v))),
            Err(e) => Err(e),
        },
    }
}

spec fn after_rows(sofar: Seq<RowV>, rest: Result<Seq<RowV>, ExecErrorV>) -> Result<
    Seq<RowV>,
    ExecErrorV,
> {
    match rest {
        Ok(rest) => Ok(sofar + rest),
        Err(e) => Err(e),
    }
}

/// The rows of a text. Floating-point values need their results recorded.
pub fn parse_rows(content: &str, floats: &FloatTable) -> (r: Result<Vec<Row>, ExecError>)
    ensures
        same_view(r, |rows: Vec<Row>| rows_view(rows@), rows_of(content@, 1, floats)),
{
    let text = to_chars(content);
    let mut out: Vec<Row> = Vec::new();
    let mut from: usize = 0;
    let mut number: u128 = 1;
    let ghost whole = rows_of(content@, 1, floats);
    proof {
        assert(text@.skip(0) =~= content@);
        assert(rows_view(out@) =~= Seq::empty());
        if whole is Ok {
            assert(Seq::<RowV>::empty() + whole->Ok_0 =~= whole->Ok_0);
        }
    }
    loop
        invariant
            from <= text@.len(),
            number <= from + 1,
            whole == after_rows(
                rows_view(out@),
                rows_of(text@.skip(from as int), number as nat, floats),
            ),
            whole == rows_of(content@, 1, floats),
        decreases text@.len() - from,
    {
        let to: usize = find_char(&text, from, text.len(), '\n');
        proof {
            let s = text@.skip(from as int);
            assert(s =~= text@.subrange(from as int, text@.len() as int));
            assert(s.take(to - from) =~= text@.subrange(from as int, to as int));
            if to < text@.len() {
                assert(s.skip(to - from + 1) =~= text@.skip(to + 1));
            }
        }
        let ghost before = rows_view(out@);
        let ghost tail = rows_of(text@.skip(to + 1), (number + 1) as nat, floats);
        match parse_row(&text, from, to, number, floats) {
            Err(e) => {
                return Err(e);
            },
            Ok(None) => {
                proof {
                    if tail is Ok {
                        assert(before + (Seq::<RowV>::empty() + tail->Ok_0) =~= before + tail->Ok_0);
                    }
                    assert(before + Seq::<RowV>::empty() =~= before);
                }
            },
            Ok(Some(row)) => {
                out.push(row);
                proof {
                    let here = (row.0, row.1, row.2@);
                    assert(rows_view(out@) =~= before.push(here));
                    assert(before + seq![here] =~= before.push(here));
                    if tail is Ok {
                        assert(before + (seq![here] + tail->Ok_0) =~= before.push(here)
                            + tail->Ok_0);
                    }
                }
            },
        }
        if to == text.len() {
            return Ok(out);
        }
        from = to + 1;
        number = number + 1;
    }
}

} // verus!
