//! The parser of the query language.
//!
//! Each rule of the grammar is a spec function from a text to what the rule reads at the
//! front of it and the text that is left, and an executable function that reads the same
//! from a position in a vector of characters. Where a rule offers choices, the first that
//! fits is taken.
//!
//! Operators bind, from the weakest to the strongest: `||`; `&&`; `==` and its kin, which
//! do not chain; `+` and `-`; `*`, `/` and `%`; the signs `-` and `!`.

use crate::ast::{
    boxes_view, literals_view, taus_view, texts_view, AggFunc, BinOp, Cap, Expr, ExprV, Literal,
    LiteralV, Stmt, StmtV, TriggerKind, TriggerKindV, UnOp,
};
use crate::lex::{
    blanks, decimal_number, gap, infix_word, integer, keyword, lemma_blanks, letters_end,
    letters_len, mark, name, quoted, read_decimal, read_gap, read_infix_word, read_integer,
    read_keyword, read_mark, read_name, read_quoted, read_spaced_mark, read_unsigned, read_word,
    skip_blanks, spaced_mark, unsigned, word, Found,
};
use crate::perm::{perm_of_text, Perm};
use crate::text::{
    all_white, decimal, end_trimmed, from_chars, is_all_white, owned, push_wide_decimal,
    slice_chars, start_trimmed, to_chars, trim, trim_start,
};
use crate::value::Type;
use vstd::prelude::*;
use vstd::string::*;

verus! {

/// The value where the reader found one, and the text that is left either way.
pub open spec fn optional<T>(found: Found<T>, s: Seq<char>) -> (Option<T>, Seq<char>) {
    match found {
        Some((v, rest)) => (Some(v), rest),
        None => (None, s),
    }
}

/// As many items as the reader finds one after the other.
pub open spec fn items<T>(item: spec_fn(Seq<char>) -> Found<T>, s: Seq<char>) -> (
    Seq<T>,
    Seq<char>,
)
    decreases s.len(),
{
    match item(s) {
        Some((v, rest)) => if rest.len() < s.len() {
            let (more, end) = items(item, rest);
            (seq![v] + more, end)
        } else {
            (Seq::empty(), s)
        },
        None => (Seq::empty(), s),
    }
}

/// A literal: `null`, a truth value, a quoted text, a decimal number, or an integer.
pub open spec fn literal(s: Seq<char>) -> Found<LiteralV> {
    if word(s, "null"@) is Some {
        Some((LiteralV::Null, word(s, "null"@)->0))
    } else if word(s, "true"@) is Some {
        Some((LiteralV::Bool(true), word(s, "true"@)->0))
    } else if word(s, "false"@) is Some {
        Some((LiteralV::Bool(false), word(s, "false"@)->0))
    } else if quoted(s) is Some {
        Some((LiteralV::Str((quoted(s)->0).0), (quoted(s)->0).1))
    } else if decimal_number(s) is Some {
        Some((LiteralV::Float((decimal_number(s)->0).0), (decimal_number(s)->0).1))
    } else if integer(s) is Some {
        Some((LiteralV::Int((integer(s)->0).0), (integer(s)->0).1))
    } else {
        None
    }
}

fn read_literal(c: &Vec<char>, i: usize) -> (r: Option<(Literal, usize)>)
    requires
        i <= c@.len(),
    ensures
        match r {
            Some((v, j)) => i < j <= c@.len() && literal(c@.skip(i as int)) == Some(
                (v@, c@.skip(j as int)),
            ),
            None => literal(c@.skip(i as int)) is None,
        },
{
    proof {
        reveal_strlit("null");
        reveal_strlit("true");
        reveal_strlit("false");
    }
    if let Some(j) = read_word(c, i, "null") {
        return Some((Literal::Null, j));
    }
    if let Some(j) = read_word(c, i, "true") {
        return Some((Literal::Bool(true), j));
    }
    if let Some(j) = read_word(c, i, "false") {
        return Some((Literal::Bool(false), j));
    }
    if let Some((text, j)) = read_quoted(c, i) {
        return Some((Literal::Str(text), j));
    }
    if let Some((text, j)) = read_decimal(c, i) {
        return Some((Literal::Float(text), j));
    }
    if let Some((n, j)) = read_integer(c, i) {
        return Some((Literal::Int(n), j));
    }
    None
}

/// The name of a type.
pub open spec fn type_word(s: Seq<char>) -> Found<Type> {
    if word(s, "int"@) is Some {
        Some((Type::Int, word(s, "int"@)->0))
    } else if word(s, "float"@) is Some {
        Some((Type::Float, word(s, "float"@)->0))
    } else if word(s, "str"@) is Some {
        Some((Type::Str, word(s, "str"@)->0))
    } else if word(s, "bool"@) is Some {
        Some((Type::Bool, word(s, "bool"@)->0))
    } else {
        None
    }
}

fn read_type(c: &Vec<char>, i: usize) -> (r: Option<(Type, usize)>)
    requires
        i <= c@.len(),
    ensures
        match r {
            Some((v, j)) => i < j <= c@.len() && type_word(c@.skip(i as int)) == Some(
                (v, c@.skip(j as int)),
            ),
            None => type_word(c@.skip(i as int)) is None,
        },
{
    proof {
        reveal_strlit("int");
        reveal_strlit("float");
        reveal_strlit("str");
        reveal_strlit("bool");
    }
    if let Some(j) = read_word(c, i, "int") {
        return Some((Type::Int, j));
    }
    if let Some(j) = read_word(c, i, "float") {
        return Some((Type::Float, j));
    }
    if let Some(j) = read_word(c, i, "str") {
        return Some((Type::Str, j));
    }
    if let Some(j) = read_word(c, i, "bool") {
        return Some((Type::Bool, j));
    }
    None
}

/// The name of an aggregate.
pub open spec fn agg_word(s: Seq<char>) -> Found<AggFunc> {
    if word(s, "min"@) is Some {
        Some((AggFunc::Min, word(s, "min"@)->0))
    } else if word(s, "max"@) is Some {
        Some((AggFunc::Max, word(s, "max"@)->0))
    } else if word(s, "avg"@) is Some {
        Some((AggFunc::Avg, word(s, "avg"@)->0))
    } else if word(s, "sum"@) is Some {
        Some((AggFunc::Sum, word(s, "sum"@)->0))
    } else if word(s, "count"@) is Some {
        Some((AggFunc::Count, word(s, "count"@)->0))
    } else {
        None
    }
}

fn read_agg(c: &Vec<char>, i: usize) -> (r: Option<(AggFunc, usize)>)
    requires
        i <= c@.len(),
    ensures
        match r {
            Some((v, j)) => i < j <= c@.len() && agg_word(c@.skip(i as int)) == Some(
                (v, c@.skip(j as int)),
            ),
            None => agg_word(c@.skip(i as int)) is None,
        },
{
    proof {
        reveal_strlit("min");
        reveal_strlit("max");
        reveal_strlit("avg");
        reveal_strlit("sum");
        reveal_strlit("count");
    }
    if let Some(j) = read_word(c, i, "min") {
        return Some((AggFunc::Min, j));
    }
    if let Some(j) = read_word(c, i, "max") {
        return Some((AggFunc::Max, j));
    }
    if let Some(j) = read_word(c, i, "avg") {
        return Some((AggFunc::Avg, j));
    }
    if let Some(j) = read_word(c, i, "sum") {
        return Some((AggFunc::Sum, j));
    }
    if let Some(j) = read_word(c, i, "count") {
        return Some((AggFunc::Count, j));
    }
    None
}

/// A start, an end and a value.
pub open spec fn triple(s: Seq<char>) -> Found<(i64, i64, LiteralV)> {
    let start = integer(s);
    let p2 = gap((start->0).1);
    let end = integer(p2->0);
    let p4 = gap((end->0).1);
    let value = literal(p4->0);
    if start is Some && p2 is Some && end is Some && p4 is Some && value is Some {
        Some((((start->0).0, (end->0).0, (value->0).0), (value->0).1))
    } else {
        None
    }
}

fn read_triple(c: &Vec<char>, i: usize) -> (r: Option<((i64, i64, Literal), usize)>)
    requires
        i <= c@.len(),
    ensures
        match r {
            Some((v, j)) => i < j <= c@.len() && triple(c@.skip(i as int)) == Some(
                ((v.0, v.1, v.2@), c@.skip(j as int)),
            ),
            None => triple(c@.skip(i as int)) is None,
        },
{
    let (start, i): (i64, usize) = read_integer(c, i)?;
    let i: usize = read_gap(c, i)?;
    let (end, i): (i64, usize) = read_integer(c, i)?;
    let i: usize = read_gap(c, i)?;
    let (value, i): (Literal, usize) = read_literal(c, i)?;
    Some(((start, end, value), i))
}

pub open spec fn comma_triple(s: Seq<char>) -> Found<(i64, i64, LiteralV)> {
    let p1 = spaced_mark(s, ',');
    let item = triple(p1->0);
    if p1 is Some && item is Some {
        Some(((item->0).0, (item->0).1))
    } else {
        None
    }
}

fn read_comma_triple(c: &Vec<char>, i: usize) -> (r: Option<((i64, i64, Literal), usize)>)
    requires
        i <= c@.len(),
    ensures
        match r {
            Some((v, j)) => i < j <= c@.len() && comma_triple(c@.skip(i as int)) == Some(
                ((v.0, v.1, v.2@), c@.skip(j as int)),
            ),
            None => comma_triple(c@.skip(i as int)) is None,
        },
{
    let i: usize = read_spaced_mark(c, i, ',')?;
    let (item, i): ((i64, i64, Literal), usize) = read_triple(c, i)?;
    Some((item, i))
}

pub open spec fn semicolon_triple(s: Seq<char>) -> Found<(i64, i64, LiteralV)> {
    let p1 = spaced_mark(s, ';');
    let item = triple(p1->0);
    if p1 is Some && item is Some {
        Some(((item->0).0, (item->0).1))
    } else {
        None
    }
}

fn read_semicolon_triple(c: &Vec<char>, i: usize) -> (r: Option<((i64, i64, Literal), usize)>)
    requires
        i <= c@.len(),
    ensures
        match r {
            Some((v, j)) => i < j <= c@.len() && semicolon_triple(c@.skip(i as int)) == Some(
                ((v.0, v.1, v.2@), c@.skip(j as int)),
            ),
            None => semicolon_triple(c@.skip(i as int)) is None,
        },
{
    let i: usize = read_spaced_mark(c, i, ';')?;
    let (item, i): ((i64, i64, Literal), usize) = read_triple(c, i)?;
    Some((item, i))
}

pub open spec fn comma_triples(s: Seq<char>) -> (Seq<(i64, i64, LiteralV)>, Seq<char>) {
    items(|s: Seq<char>| comma_triple(s), s)
}

fn read_comma_triples(c: &Vec<char>, i: usize) -> (r: (Vec<(i64, i64, Literal)>, usize))
    requires
        i <= c@.len(),
    ensures
        i <= r.1 <= c@.len(),
        comma_triples(c@.skip(i as int)).0 =~= taus_view(r.0@),
        comma_triples(c@.skip(i as int)).1 == c@.skip(r.1 as int),
{
    let ghost item = |s: Seq<char>| comma_triple(s);
    let mut out: Vec<(i64, i64, Literal)> = Vec::new();
    let mut j: usize = i;
    loop
        invariant
            i <= j <= c@.len(),
            item == (|s: Seq<char>| comma_triple(s)),
            items(item, c@.skip(i as int)).0 =~= taus_view(out@) + items(
                item,
                c@.skip(j as int),
            ).0,
            items(item, c@.skip(i as int)).1 == items(item, c@.skip(j as int)).1,
        decreases c@.len() - j,
    {
        match read_comma_triple(c, j) {
            Some((v, k)) => {
                let ghost before = out@;
                out.push(v);
                proof {
                    let tail = items(item, c@.skip(k as int)).0;
                    assert(item(c@.skip(j as int)) == Some(((v.0, v.1, v.2@), c@.skip(k as int))));
                    assert(taus_view(out@) =~= taus_view(before).push((v.0, v.1, v.2@)));
                    assert(taus_view(before) + (seq![(v.0, v.1, v.2@)] + tail) =~= taus_view(out@) + tail);
                }
                j = k;
            },
            None => {
                assert(item(c@.skip(j as int)) is None);
                return (out, j);
            },
        }
    }
}

pub open spec fn semicolon_triples(s: Seq<char>) -> (Seq<(i64, i64, LiteralV)>, Seq<char>) {
    items(|s: Seq<char>| semicolon_triple(s), s)
}

fn read_semicolon_triples(c: &Vec<char>, i: usize) -> (r: (Vec<(i64, i64, Literal)>, usize))
    requires
        i <= c@.len(),
    ensures
        i <= r.1 <= c@.len(),
        semicolon_triples(c@.skip(i as int)).0 =~= taus_view(r.0@),
        semicolon_triples(c@.skip(i as int)).1 == c@.skip(r.1 as int),
{
    let ghost item = |s: Seq<char>| semicolon_triple(s);
    let mut out: Vec<(i64, i64, Literal)> = Vec::new();
    let mut j: usize = i;
    loop
        invariant
            i <= j <= c@.len(),
            item == (|s: Seq<char>| semicolon_triple(s)),
            items(item, c@.skip(i as int)).0 =~= taus_view(out@) + items(
                item,
                c@.skip(j as int),
            ).0,
            items(item, c@.skip(i as int)).1 == items(item, c@.skip(j as int)).1,
        decreases c@.len() - j,
    {
        match read_semicolon_triple(c, j) {
            Some((v, k)) => {
                let ghost before = out@;
                out.push(v);
                proof {
                    let tail = items(item, c@.skip(k as int)).0;
                    assert(item(c@.skip(j as int)) == Some(((v.0, v.1, v.2@), c@.skip(k as int))));
                    assert(taus_view(out@) =~= taus_view(before).push((v.0, v.1, v.2@)));
                    assert(taus_view(before) + (seq![(v.0, v.1, v.2@)] + tail) =~= taus_view(out@) + tail);
                }
                j = k;
            },
            None => {
                assert(item(c@.skip(j as int)) is None);
                return (out, j);
            },
        }
    }
}

/// One axis interval, `[lo hi]`.
pub open spec fn interval(s: Seq<char>) -> Found<(i64, i64)> {
    let p1 = mark(s, '[');
    let lo = integer(blanks(p1->0));
    let p4 = gap((lo->0).1);
    let hi = integer(p4->0);
    let p7 = mark(blanks((hi->0).1), ']');
    if p1 is Some && lo is Some && p4 is Some && hi is Some && p7 is Some {
        Some((((lo->0).0, (hi->0).0), p7->0))
    } else {
        None
    }
}

fn read_interval(c: &Vec<char>, i: usize) -> (r: Option<((i64, i64), usize)>)
    requires
        i <= c@.len(),
    ensures
        match r {
            Some((v, j)) => i < j <= c@.len() && interval(c@.skip(i as int)) == Some(
                (v, c@.skip(j as int)),
            ),
            None => interval(c@.skip(i as int)) is None,
        },
{
    let i: usize = read_mark(c, i, '[')?;
    let i: usize = skip_blanks(c, i);
    let (lo, i): (i64, usize) = read_integer(c, i)?;
    let i: usize = read_gap(c, i)?;
    let (hi, i): (i64, usize) = read_integer(c, i)?;
    let i: usize = skip_blanks(c, i);
    let i: usize = read_mark(c, i, ']')?;
    Some(((lo, hi), i))
}

pub open spec fn next_interval(s: Seq<char>) -> Found<(i64, i64)> {
    let p1 = gap(s);
    let item = interval(p1->0);
    if p1 is Some && item is Some {
        Some(((item->0).0, (item->0).1))
    } else {
        None
    }
}

fn read_next_interval(c: &Vec<char>, i: usize) -> (r: Option<((i64, i64), usize)>)
    requires
        i <= c@.len(),
    ensures
        match r {
            Some((v, j)) => i < j <= c@.len() && next_interval(c@.skip(i as int)) == Some(
                (v, c@.skip(j as int)),
            ),
            None => next_interval(c@.skip(i as int)) is None,
        },
{
    let i: usize = read_gap(c, i)?;
    let (item, i): ((i64, i64), usize) = read_interval(c, i)?;
    Some((item, i))
}

pub open spec fn intervals(s: Seq<char>) -> (Seq<(i64, i64)>, Seq<char>) {
    items(|s: Seq<char>| next_interval(s), s)
}

fn read_intervals(c: &Vec<char>, i: usize) -> (r: (Vec<(i64, i64)>, usize))
    requires
        i <= c@.len(),
    ensures
        i <= r.1 <= c@.len(),
        intervals(c@.skip(i as int)).0 =~= r.0@,
        intervals(c@.skip(i as int)).1 == c@.skip(r.1 as int),
{
    let ghost item = |s: Seq<char>| next_interval(s);
    let mut out: Vec<(i64, i64)> = Vec::new();
    let mut j: usize = i;
    loop
        invariant
            i <= j <= c@.len(),
            item == (|s: Seq<char>| next_interval(s)),
            items(item, c@.skip(i as int)).0 =~= out@ + items(
                item,
                c@.skip(j as int),
            ).0,
            items(item, c@.skip(i as int)).1 == items(item, c@.skip(j as int)).1,
        decreases c@.len() - j,
    {
        match read_next_interval(c, j) {
            Some((v, k)) => {
                let ghost before = out@;
                out.push(v);
                proof {
                    let tail = items(item, c@.skip(k as int)).0;
                    assert(item(c@.skip(j as int)) == Some((v, c@.skip(k as int))));
                    assert(out@ =~= before.push(v));
                    assert(before + (seq![v] + tail) =~= out@ + tail);
                }
                j = k;
            },
            None => {
                assert(item(c@.skip(j as int)) is None);
                return (out, j);
            },
        }
    }
}

/// A list whose first item is apart from the others.
fn prepend<T>(first: T, rest: Vec<T>) -> (r: Vec<T>)
    ensures
        r@ == seq![first] + rest@,
{
    let mut all: Vec<T> = rest;
    all.insert(0, first);
    assert(all@ =~= seq![first] + rest@);
    all
}

/// One box: an interval per axis, and a value.
pub open spec fn nd_box(s: Seq<char>) -> Found<(Seq<(i64, i64)>, LiteralV)> {
    let first = interval(s);
    let rest = intervals((first->0).1);
    let p3 = gap(rest.1);
    let value = literal(p3->0);
    if first is Some && p3 is Some && value is Some {
        Some(((seq![(first->0).0] + rest.0, (value->0).0), (value->0).1))
    } else {
        None
    }
}

fn read_nd_box(c: &Vec<char>, i: usize) -> (r: Option<((Vec<(i64, i64)>, Literal), usize)>)
    requires
        i <= c@.len(),
    ensures
        match r {
            Some((v, j)) => i < j <= c@.len() && nd_box(c@.skip(i as int)) == Some(
                ((v.0@, v.1@), c@.skip(j as int)),
            ),
            None => nd_box(c@.skip(i as int)) is None,
        },
{
    let (first, i): ((i64, i64), usize) = read_interval(c, i)?;
    let (rest, i): (Vec<(i64, i64)>, usize) = read_intervals(c, i);
    let i: usize = read_gap(c, i)?;
    let (value, i): (Literal, usize) = read_literal(c, i)?;
    Some(((prepend(first, rest), value), i))
}

pub open spec fn comma_box(s: Seq<char>) -> Found<(Seq<(i64, i64)>, LiteralV)> {
    let p1 = spaced_mark(s, ',');
    let item = nd_box(p1->0);
    if p1 is Some && item is Some {
        Some(((item->0).0, (item->0).1))
    } else {
        None
    }
}

fn read_comma_box(c: &Vec<char>, i: usize) -> (r: Option<((Vec<(i64, i64)>, Literal), usize)>)
    requires
        i <= c@.len(),
    ensures
        match r {
            Some((v, j)) => i < j <= c@.len() && comma_box(c@.skip(i as int)) == Some(
                ((v.0@, v.1@), c@.skip(j as int)),
            ),
            None => comma_box(c@.skip(i as int)) is None,
        },
{
    let i: usize = read_spaced_mark(c, i, ',')?;
    let (item, i): ((Vec<(i64, i64)>, Literal), usize) = read_nd_box(c, i)?;
    Some((item, i))
}

pub open spec fn comma_boxes(s: Seq<char>) -> (Seq<(Seq<(i64, i64)>, LiteralV)>, Seq<char>) {
    items(|s: Seq<char>| comma_box(s), s)
}

fn read_comma_boxes(c: &Vec<char>, i: usize) -> (r: (Vec<(Vec<(i64, i64)>, Literal)>, usize))
    requires
        i <= c@.len(),
    ensures
        i <= r.1 <= c@.len(),
        comma_boxes(c@.skip(i as int)).0 =~= boxes_view(r.0@),
        comma_boxes(c@.skip(i as int)).1 == c@.skip(r.1 as int),
{
    let ghost item = |s: Seq<char>| comma_box(s);
    let mut out: Vec<(Vec<(i64, i64)>, Literal)> = Vec::new();
    let mut j: usize = i;
    loop
        invariant
            i <= j <= c@.len(),
            item == (|s: Seq<char>| comma_box(s)),
            items(item, c@.skip(i as int)).0 =~= boxes_view(out@) + items(
                item,
                c@.skip(j as int),
            ).0,
            items(item, c@.skip(i as int)).1 == items(item, c@.skip(j as int)).1,
        decreases c@.len() - j,
    {
        match read_comma_box(c, j) {
            Some((v, k)) => {
                let ghost before = out@;
                out.push(v);
                proof {
                    let tail = items(item, c@.skip(k as int)).0;
                    assert(item(c@.skip(j as int)) == Some(((v.0@, v.1@), c@.skip(k as int))));
                    assert(boxes_view(out@) =~= boxes_view(before).push((v.0@, v.1@)));
                    assert(boxes_view(before) + (seq![(v.0@, v.1@)] + tail) =~= boxes_view(out@) + tail);
                }
                j = k;
            },
            None => {
                assert(item(c@.skip(j as int)) is None);
                return (out, j);
            },
        }
    }
}

pub open spec fn comma_name(s: Seq<char>) -> Found<Seq<char>> {
    let p1 = spaced_mark(s, ',');
    let item = name(p1->0);
    if p1 is Some && item is Some {
        Some(((item->0).0, (item->0).1))
    } else {
        None
    }
}

fn read_comma_name(c: &Vec<char>, i: usize) -> (r: Option<(String, usize)>)
    requires
        i <= c@.len(),
    ensures
        match r {
            Some((v, j)) => i < j <= c@.len() && comma_name(c@.skip(i as int)) == Some(
                (v@, c@.skip(j as int)),
            ),
            None => comma_name(c@.skip(i as int)) is None,
        },
{
    let i: usize = read_spaced_mark(c, i, ',')?;
    let (item, i): (String, usize) = read_name(c, i)?;
    Some((item, i))
}

pub open spec fn comma_names(s: Seq<char>) -> (Seq<Seq<char>>, Seq<char>) {
    items(|s: Seq<char>| comma_name(s), s)
}

fn read_comma_names(c: &Vec<char>, i: usize) -> (r: (Vec<String>, usize))
    requires
        i <= c@.len(),
    ensures
        i <= r.1 <= c@.len(),
        comma_names(c@.skip(i as int)).0 =~= texts_view(r.0@),
        comma_names(c@.skip(i as int)).1 == c@.skip(r.1 as int),
{
    let ghost item = |s: Seq<char>| comma_name(s);
    let mut out: Vec<String> = Vec::new();
    let mut j: usize = i;
    loop
        invariant
            i <= j <= c@.len(),
            item == (|s: Seq<char>| comma_name(s)),
            items(item, c@.skip(i as int)).0 =~= texts_view(out@) + items(
                item,
                c@.skip(j as int),
            ).0,
            items(item, c@.skip(i as int)).1 == items(item, c@.skip(j as int)).1,
        decreases c@.len() - j,
    {
        match read_comma_name(c, j) {
            Some((v, k)) => {
                let ghost before = out@;
                out.push(v);
                proof {
                    let tail = items(item, c@.skip(k as int)).0;
                    assert(item(c@.skip(j as int)) == Some((v@, c@.skip(k as int))));
                    assert(texts_view(out@) =~= texts_view(before).push(v@));
                    assert(texts_view(before) + (seq![v@] + tail) =~= texts_view(out@) + tail);
                }
                j = k;
            },
            None => {
                assert(item(c@.skip(j as int)) is None);
                return (out, j);
            },
        }
    }
}

pub open spec fn comma_integer(s: Seq<char>) -> Found<i64> {
    let p1 = spaced_mark(s, ',');
    let item = integer(p1->0);
    if p1 is Some && item is Some {
        Some(((item->0).0, (item->0).1))
    } else {
        None
    }
}

fn read_comma_integer(c: &Vec<char>, i: usize) -> (r: Option<(i64, usize)>)
    requires
        i <= c@.len(),
    ensures
        match r {
            Some((v, j)) => i < j <= c@.len() && comma_integer(c@.skip(i as int)) == Some(
                (v, c@.skip(j as int)),
            ),
            None => comma_integer(c@.skip(i as int)) is None,
        },
{
    let i: usize = read_spaced_mark(c, i, ',')?;
    let (item, i): (i64, usize) = read_integer(c, i)?;
    Some((item, i))
}

pub open spec fn comma_integers(s: Seq<char>) -> (Seq<i64>, Seq<char>) {
    items(|s: Seq<char>| comma_integer(s), s)
}

fn read_comma_integers(c: &Vec<char>, i: usize) -> (r: (Vec<i64>, usize))
    requires
        i <= c@.len(),
    ensures
        i <= r.1 <= c@.len(),
        comma_integers(c@.skip(i as int)).0 =~= r.0@,
        comma_integers(c@.skip(i as int)).1 == c@.skip(r.1 as int),
{
    let ghost item = |s: Seq<char>| comma_integer(s);
    let mut out: Vec<i64> = Vec::new();
    let mut j: usize = i;
    loop
        invariant
            i <= j <= c@.len(),
            item == (|s: Seq<char>| comma_integer(s)),
            items(item, c@.skip(i as int)).0 =~= out@ + items(
                item,
                c@.skip(j as int),
            ).0,
            items(item, c@.skip(i as int)).1 == items(item, c@.skip(j as int)).1,
        decreases c@.len() - j,
    {
        match read_comma_integer(c, j) {
            Some((v, k)) => {
                let ghost before = out@;
                out.push(v);
                proof {
                    let tail = items(item, c@.skip(k as int)).0;
                    assert(item(c@.skip(j as int)) == Some((v, c@.skip(k as int))));
                    assert(out@ =~= before.push(v));
                    assert(before + (seq![v] + tail) =~= out@ + tail);
                }
                j = k;
            },
            None => {
                assert(item(c@.skip(j as int)) is None);
                return (out, j);
            },
        }
    }
}

pub open spec fn next_integer(s: Seq<char>) -> Found<i64> {
    let p1 = gap(s);
    let item = integer(p1->0);
    if p1 is Some && item is Some {
        Some(((item->0).0, (item->0).1))
    } else {
        None
    }
}

fn read_next_integer(c: &Vec<char>, i: usize) -> (r: Option<(i64, usize)>)
    requires
        i <= c@.len(),
    ensures
        match r {
            Some((v, j)) => i < j <= c@.len() && next_integer(c@.skip(i as int)) == Some(
                (v, c@.skip(j as int)),
            ),
            None => next_integer(c@.skip(i as int)) is None,
        },
{
    let i: usize = read_gap(c, i)?;
    let (item, i): (i64, usize) = read_integer(c, i)?;
    Some((item, i))
}

pub open spec fn next_integers(s: Seq<char>) -> (Seq<i64>, Seq<char>) {
    items(|s: Seq<char>| next_integer(s), s)
}

fn read_next_integers(c: &Vec<char>, i: usize) -> (r: (Vec<i64>, usize))
    requires
        i <= c@.len(),
    ensures
        i <= r.1 <= c@.len(),
        next_integers(c@.skip(i as int)).0 =~= r.0@,
        next_integers(c@.skip(i as int)).1 == c@.skip(r.1 as int),
{
    let ghost item = |s: Seq<char>| next_integer(s);
    let mut out: Vec<i64> = Vec::new();
    let mut j: usize = i;
    loop
        invariant
            i <= j <= c@.len(),
            item == (|s: Seq<char>| next_integer(s)),
            items(item, c@.skip(i as int)).0 =~= out@ + items(
                item,
                c@.skip(j as int),
            ).0,
            items(item, c@.skip(i as int)).1 == items(item, c@.skip(j as int)).1,
        decreases c@.len() - j,
    {
        match read_next_integer(c, j) {
            Some((v, k)) => {
                let ghost before = out@;
                out.push(v);
                proof {
                    let tail = items(item, c@.skip(k as int)).0;
                    assert(item(c@.skip(j as int)) == Some((v, c@.skip(k as int))));
                    assert(out@ =~= before.push(v));
                    assert(before + (seq![v] + tail) =~= out@ + tail);
                }
                j = k;
            },
            None => {
                assert(item(c@.skip(j as int)) is None);
                return (out, j);
            },
        }
    }
}

pub open spec fn comma_literal(s: Seq<char>) -> Found<LiteralV> {
    let p1 = spaced_mark(s, ',');
    let item = literal(p1->0);
    if p1 is Some && item is Some {
        Some(((item->0).0, (item->0).1))
    } else {
        None
    }
}

fn read_comma_literal(c: &Vec<char>, i: usize) -> (r: Option<(Literal, usize)>)
    requires
        i <= c@.len(),
    ensures
        match r {
            Some((v, j)) => i < j <= c@.len() && comma_literal(c@.skip(i as int)) == Some(
                (v@, c@.skip(j as int)),
            ),
            None => comma_literal(c@.skip(i as int)) is None,
        },
{
    let i: usize = read_spaced_mark(c, i, ',')?;
    let (item, i): (Literal, usize) = read_literal(c, i)?;
    Some((item, i))
}

pub open spec fn comma_literals(s: Seq<char>) -> (Seq<LiteralV>, Seq<char>) {
    items(|s: Seq<char>| comma_literal(s), s)
}

fn read_comma_literals(c: &Vec<char>, i: usize) -> (r: (Vec<Literal>, usize))
    requires
        i <= c@.len(),
    ensures
        i <= r.1 <= c@.len(),
        comma_literals(c@.skip(i as int)).0 =~= literals_view(r.0@),
        comma_literals(c@.skip(i as int)).1 == c@.skip(r.1 as int),
{
    let ghost item = |s: Seq<char>| comma_literal(s);
    let mut out: Vec<Literal> = Vec::new();
    let mut j: usize = i;
    loop
        invariant
            i <= j <= c@.len(),
            item == (|s: Seq<char>| comma_literal(s)),
            items(item, c@.skip(i as int)).0 =~= literals_view(out@) + items(
                item,
                c@.skip(j as int),
            ).0,
            items(item, c@.skip(i as int)).1 == items(item, c@.skip(j as int)).1,
        decreases c@.len() - j,
    {
        match read_comma_literal(c, j) {
            Some((v, k)) => {
                let ghost before = out@;
                out.push(v);
                proof {
                    let tail = items(item, c@.skip(k as int)).0;
                    assert(item(c@.skip(j as int)) == Some((v@, c@.skip(k as int))));
                    assert(literals_view(out@) =~= literals_view(before).push(v@));
                    assert(literals_view(before) + (seq![v@] + tail) =~= literals_view(out@) + tail);
                }
                j = k;
            },
            None => {
                assert(item(c@.skip(j as int)) is None);
                return (out, j);
            },
        }
    }
}

/// An aggregate of a lens: `func(lens, from, to)`.
pub open spec fn agg_call(s: Seq<char>) -> Found<ExprV> {
    let func = agg_word(s);
    let p2 = spaced_mark((func->0).1, '(');
    let lens = name(p2->0);
    let p4 = spaced_mark((lens->0).1, ',');
    let rel_start = integer(p4->0);
    let p6 = spaced_mark((rel_start->0).1, ',');
    let rel_end = integer(p6->0);
    let p9 = mark(blanks((rel_end->0).1), ')');
    if func is Some && p2 is Some && lens is Some && p4 is Some && rel_start is Some && p6 is Some
        && rel_end is Some && p9 is Some {
        Some(
            (
                ExprV::Agg {
                    func: (func->0).0,
                    lens: (lens->0).0,
                    rel_start: (rel_start->0).0,
                    rel_end: (rel_end->0).0,
                },
                p9->0,
            ),
        )
    } else {
        None
    }
}

fn read_agg_call(c: &Vec<char>, i: usize) -> (r: Option<(Expr, usize)>)
    requires
        i <= c@.len(),
    ensures
        match r {
            Some((v, j)) => i < j <= c@.len() && agg_call(c@.skip(i as int)) == Some(
                (v@, c@.skip(j as int)),
            ),
            None => agg_call(c@.skip(i as int)) is None,
        },
{
    let (func, i): (AggFunc, usize) = read_agg(c, i)?;
    let i: usize = read_spaced_mark(c, i, '(')?;
    let (lens, i): (String, usize) = read_name(c, i)?;
    let i: usize = read_spaced_mark(c, i, ',')?;
    let (rel_start, i): (i64, usize) = read_integer(c, i)?;
    let i: usize = read_spaced_mark(c, i, ',')?;
    let (rel_end, i): (i64, usize) = read_integer(c, i)?;
    let i: usize = skip_blanks(c, i);
    let i: usize = read_mark(c, i, ')')?;
    Some((Expr::Agg { func, lens, rel_start, rel_end }, i))
}

/// The operator of the given binding strength at the front of the text.
pub open spec fn operator(n: int, s: Seq<char>) -> Found<BinOp> {
    if n == 0 {
        or_sign(s)
    } else if n == 1 {
        and_sign(s)
    } else if n == 2 {
        comparison_sign(s)
    } else if n == 3 {
        sum_sign(s)
    } else {
        product_sign(s)
    }
}

pub open spec fn or_sign(s: Seq<char>) -> Found<BinOp> {
    if word(s, "||"@) is Some {
        Some((BinOp::Or, word(s, "||"@)->0))
    } else {
        None
    }
}

fn read_or(c: &Vec<char>, i: usize) -> (r: Option<(BinOp, usize)>)
    requires
        i <= c@.len(),
    ensures
        match r {
            Some((v, j)) => i < j <= c@.len() && or_sign(c@.skip(i as int)) == Some(
                (v, c@.skip(j as int)),
            ),
            None => or_sign(c@.skip(i as int)) is None,
        },
{
    proof {
        reveal_strlit("||");
    }
    if let Some(j) = read_word(c, i, "||") {
        return Some((BinOp::Or, j));
    }
    None
}

pub open spec fn and_sign(s: Seq<char>) -> Found<BinOp> {
    if word(s, "&&"@) is Some {
        Some((BinOp::And, word(s, "&&"@)->0))
    } else {
        None
    }
}

fn read_and(c: &Vec<char>, i: usize) -> (r: Option<(BinOp, usize)>)
    requires
        i <= c@.len(),
    ensures
        match r {
            Some((v, j)) => i < j <= c@.len() && and_sign(c@.skip(i as int)) == Some(
                (v, c@.skip(j as int)),
            ),
            None => and_sign(c@.skip(i as int)) is None,
        },
{
    proof {
        reveal_strlit("&&");
    }
    if let Some(j) = read_word(c, i, "&&") {
        return Some((BinOp::And, j));
    }
    None
}

pub open spec fn comparison_sign(s: Seq<char>) -> Found<BinOp> {
    if word(s, "=="@) is Some {
        Some((BinOp::Eq, word(s, "=="@)->0))
    } else if word(s, "!="@) is Some {
        Some((BinOp::NotEq, word(s, "!="@)->0))
    } else if word(s, "<="@) is Some {
        Some((BinOp::LtEq, word(s, "<="@)->0))
    } else if word(s, ">="@) is Some {
        Some((BinOp::GtEq, word(s, ">="@)->0))
    } else if word(s, "<"@) is Some {
        Some((BinOp::Lt, word(s, "<"@)->0))
    } else if word(s, ">"@) is Some {
        Some((BinOp::Gt, word(s, ">"@)->0))
    } else {
        None
    }
}

fn read_comparison(c: &Vec<char>, i: usize) -> (r: Option<(BinOp, usize)>)
    requires
        i <= c@.len(),
    ensures
        match r {
            Some((v, j)) => i < j <= c@.len() && comparison_sign(c@.skip(i as int)) == Some(
                (v, c@.skip(j as int)),
            ),
            None => comparison_sign(c@.skip(i as int)) is None,
        },
{
    proof {
        reveal_strlit("==");
        reveal_strlit("!=");
        reveal_strlit("<=");
        reveal_strlit(">=");
        reveal_strlit("<");
        reveal_strlit(">");
    }
    if let Some(j) = read_word(c, i, "==") {
        return Some((BinOp::Eq, j));
    }
    if let Some(j) = read_word(c, i, "!=") {
        return Some((BinOp::NotEq, j));
    }
    if let Some(j) = read_word(c, i, "<=") {
        return Some((BinOp::LtEq, j));
    }
    if let Some(j) = read_word(c, i, ">=") {
        return Some((BinOp::GtEq, j));
    }
    if let Some(j) = read_word(c, i, "<") {
        return Some((BinOp::Lt, j));
    }
    if let Some(j) = read_word(c, i, ">") {
        return Some((BinOp::Gt, j));
    }
    None
}

pub open spec fn sum_sign(s: Seq<char>) -> Found<BinOp> {
    if word(s, "+"@) is Some {
        Some((BinOp::Add, word(s, "+"@)->0))
    } else if word(s, "-"@) is Some {
        Some((BinOp::Sub, word(s, "-"@)->0))
    } else {
        None
    }
}

fn read_sum_sign(c: &Vec<char>, i: usize) -> (r: Option<(BinOp, usize)>)
    requires
        i <= c@.len(),
    ensures
        match r {
            Some((v, j)) => i < j <= c@.len() && sum_sign(c@.skip(i as int)) == Some(
                (v, c@.skip(j as int)),
            ),
            None => sum_sign(c@.skip(i as int)) is None,
        },
{
    proof {
        reveal_strlit("+");
        reveal_strlit("-");
    }
    if let Some(j) = read_word(c, i, "+") {
        return Some((BinOp::Add, j));
    }
    if let Some(j) = read_word(c, i, "-") {
        return Some((BinOp::Sub, j));
    }
    None
}

pub open spec fn product_sign(s: Seq<char>) -> Found<BinOp> {
    if word(s, "*"@) is Some {
        Some((BinOp::Mul, word(s, "*"@)->0))
    } else if word(s, "/"@) is Some {
        Some((BinOp::Div, word(s, "/"@)->0))
    } else if word(s, "%"@) is Some {
        Some((BinOp::Mod, word(s, "%"@)->0))
    } else {
        None
    }
}

fn read_product_sign(c: &Vec<char>, i: usize) -> (r: Option<(BinOp, usize)>)
    requires
        i <= c@.len(),
    ensures
        match r {
            Some((v, j)) => i < j <= c@.len() && product_sign(c@.skip(i as int)) == Some(
                (v, c@.skip(j as int)),
            ),
            None => product_sign(c@.skip(i as int)) is None,
        },
{
    proof {
        reveal_strlit("*");
        reveal_strlit("/");
        reveal_strlit("%");
    }
    if let Some(j) = read_word(c, i, "*") {
        return Some((BinOp::Mul, j));
    }
    if let Some(j) = read_word(c, i, "/") {
        return Some((BinOp::Div, j));
    }
    if let Some(j) = read_word(c, i, "%") {
        return Some((BinOp::Mod, j));
    }
    None
}

fn read_operator(c: &Vec<char>, i: usize, n: u8) -> (r: Option<(BinOp, usize)>)
    requires
        i <= c@.len(),
    ensures
        match r {
            Some((v, j)) => i < j <= c@.len() && operator(n as int, c@.skip(i as int)) == Some(
                (v, c@.skip(j as int)),
            ),
            None => operator(n as int, c@.skip(i as int)) is None,
        },
{
    if n == 0 {
        read_or(c, i)
    } else if n == 1 {
        read_and(c, i)
    } else if n == 2 {
        read_comparison(c, i)
    } else if n == 3 {
        read_sum_sign(c, i)
    } else {
        read_product_sign(c, i)
    }
}

pub open spec fn binary(op: BinOp, lhs: ExprV, rhs: ExprV) -> ExprV {
    ExprV::Binary { op, lhs: Box::new(lhs), rhs: Box::new(rhs) }
}

/// An expression whose operators outside brackets bind with strength `n` or more.
pub open spec fn level(n: int, s: Seq<char>) -> Found<ExprV>
    decreases s.len(), (if 0 <= n < 5 { 10 - n } else { 5int }),
{
    if n < 0 || n >= 5 {
        signed(s)
    } else {
        match level(n + 1, s) {
            Some((first, rest)) => if rest.len() < s.len() {
                Some(
                    if n == 2 {
                        compared(first, rest)
                    } else {
                        chain(n, first, rest)
                    },
                )
            } else {
                None
            },
            None => None,
        }
    }
}

/// What follows an operand: operators of strength `n`, each with its right operand,
/// taken from left to right.
pub open spec fn chain(n: int, acc: ExprV, s: Seq<char>) -> (ExprV, Seq<char>)
    decreases s.len(), 0int,
{
    match operator(n, blanks(s)) {
        Some((op, s1)) => if blanks(s1).len() < s.len() {
            match level(n + 1, blanks(s1)) {
                Some((rhs, s2)) => if s2.len() < s.len() {
                    chain(n, binary(op, acc, rhs), s2)
                } else {
                    (acc, s)
                },
                None => (acc, s),
            }
        } else {
            (acc, s)
        },
        None => (acc, s),
    }
}

/// What follows the left operand of a comparison: at most one comparison.
pub open spec fn compared(lhs: ExprV, s: Seq<char>) -> (ExprV, Seq<char>)
    decreases s.len(), 0int,
{
    match operator(2, blanks(s)) {
        Some((op, s1)) => if blanks(s1).len() < s.len() {
            match level(3, blanks(s1)) {
                Some((rhs, s2)) => (binary(op, lhs, rhs), s2),
                None => (lhs, s),
            }
        } else {
            (lhs, s)
        },
        None => (lhs, s),
    }
}

/// An operand, perhaps behind signs.
pub open spec fn signed(s: Seq<char>) -> Found<ExprV>
    decreases s.len(), 4int,
{
    proof {
        lemma_blanks(s);
    }
    let t = blanks(s);
    let negated = if mark(t, '-') is Some {
        signed(t.drop_first())
    } else {
        None
    };
    let inverted = if mark(t, '!') is Some {
        signed(t.drop_first())
    } else {
        None
    };
    if negated is Some {
        Some(
            (
                ExprV::Unary { op: UnOp::Neg, expr: Box::new((negated->0).0) },
                (negated->0).1,
            ),
        )
    } else if inverted is Some {
        Some(
            (
                ExprV::Unary { op: UnOp::Not, expr: Box::new((inverted->0).0) },
                (inverted->0).1,
            ),
        )
    } else {
        primary(t)
    }
}

/// An expression in brackets.
pub open spec fn bracketed(s: Seq<char>) -> Found<ExprV>
    decreases s.len(), 1int,
{
    proof {
        lemma_blanks(s.drop_first());
    }
    if mark(s, '(') is Some {
        match level(0, blanks(s.drop_first())) {
            Some((e, s1)) => match mark(blanks(s1), ')') {
                Some(s2) => Some((e, s2)),
                None => None,
            },
            None => None,
        }
    } else {
        None
    }
}

/// An expression in brackets, a literal, an aggregate, or the name of a lens.
pub open spec fn primary(s: Seq<char>) -> Found<ExprV>
    decreases s.len(), 3int,
{
    proof {
        lemma_blanks(s);
    }
    let t = blanks(s);
    if bracketed(t) is Some {
        bracketed(t)
    } else if literal(t) is Some {
        Some((ExprV::Lit((literal(t)->0).0), (literal(t)->0).1))
    } else if agg_call(t) is Some {
        agg_call(t)
    } else if name(t) is Some {
        Some((ExprV::Ident((name(t)->0).0), (name(t)->0).1))
    } else {
        None
    }
}

/// An expression.
pub open spec fn expr(s: Seq<char>) -> Found<ExprV> {
    level(0, s)
}

fn join(op: BinOp, lhs: Expr, rhs: Expr) -> (r: Expr)
    ensures
        r@ == binary(op, lhs@, rhs@),
{
    Expr::Binary { op, lhs: Box::new(lhs), rhs: Box::new(rhs) }
}

fn read_level(c: &Vec<char>, i: usize, n: u8) -> (r: Option<(Expr, usize)>)
    requires
        i <= c@.len(),
        n <= 5,
    ensures
        match r {
            Some((v, j)) => i < j <= c@.len() && level(n as int, c@.skip(i as int)) == Some(
                (v@, c@.skip(j as int)),
            ),
            None => level(n as int, c@.skip(i as int)) is None,
        },
    decreases c@.len() - i, 10 - n,
{
    if n == 5 {
        return read_signed(c, i);
    }
    let (first, k): (Expr, usize) = read_level(c, i, n + 1)?;
    if n == 2 {
        let ghost tail = compared(first@, c@.skip(k as int));
        assert(level(2, c@.skip(i as int)) == Some(tail));
        let k1: usize = skip_blanks(c, k);
        if let Some((op, k2)) = read_operator(c, k1, 2) {
            let k3: usize = skip_blanks(c, k2);
            if let Some((rhs, k4)) = read_level(c, k3, 3) {
                return Some((join(op, first, rhs), k4));
            }
        }
        return Some((first, k));
    }
    let ghost head = first@;
    let mut acc: Expr = first;
    let mut j: usize = k;
    loop
        invariant
            i < k <= j <= c@.len(),
            n < 5,
            n != 2,
            chain(n as int, head, c@.skip(k as int)) == chain(n as int, acc@, c@.skip(j as int)),
            level(n as int, c@.skip(i as int)) == Some(chain(n as int, head, c@.skip(k as int))),
        decreases c@.len() - j,
    {
        let j1: usize = skip_blanks(c, j);
        match read_operator(c, j1, n) {
            Some((op, j2)) => {
                let j3: usize = skip_blanks(c, j2);
                match read_level(c, j3, n + 1) {
                    Some((rhs, j4)) => {
                        acc = join(op, acc, rhs);
                        j = j4;
                    },
                    None => {
                        return Some((acc, j));
                    },
                }
            },
            None => {
                return Some((acc, j));
            },
        }
    }
}

fn read_signed(c: &Vec<char>, i: usize) -> (r: Option<(Expr, usize)>)
    requires
        i <= c@.len(),
    ensures
        match r {
            Some((v, j)) => i < j <= c@.len() && signed(c@.skip(i as int)) == Some(
                (v@, c@.skip(j as int)),
            ),
            None => signed(c@.skip(i as int)) is None,
        },
    decreases c@.len() - i, 4int,
{
    let t: usize = skip_blanks(c, i);
    if let Some(k) = read_mark(c, t, '-') {
        if let Some((e, j)) = read_signed(c, k) {
            return Some((Expr::Unary { op: UnOp::Neg, expr: Box::new(e) }, j));
        }
    } else if let Some(k) = read_mark(c, t, '!') {
        if let Some((e, j)) = read_signed(c, k) {
            return Some((Expr::Unary { op: UnOp::Not, expr: Box::new(e) }, j));
        }
    }
    read_primary(c, t)
}

fn read_bracketed(c: &Vec<char>, i: usize) -> (r: Option<(Expr, usize)>)
    requires
        i <= c@.len(),
    ensures
        match r {
            Some((v, j)) => i < j <= c@.len() && bracketed(c@.skip(i as int)) == Some(
                (v@, c@.skip(j as int)),
            ),
            None => bracketed(c@.skip(i as int)) is None,
        },
    decreases c@.len() - i, 1int,
{
    let k: usize = read_mark(c, i, '(')?;
    let k: usize = skip_blanks(c, k);
    let (e, k): (Expr, usize) = read_level(c, k, 0)?;
    let k: usize = skip_blanks(c, k);
    let k: usize = read_mark(c, k, ')')?;
    Some((e, k))
}

fn read_primary(c: &Vec<char>, i: usize) -> (r: Option<(Expr, usize)>)
    requires
        i <= c@.len(),
    ensures
        match r {
            Some((v, j)) => i < j <= c@.len() && primary(c@.skip(i as int)) == Some(
                (v@, c@.skip(j as int)),
            ),
            None => primary(c@.skip(i as int)) is None,
        },
    decreases c@.len() - i, 3int,
{
    let t: usize = skip_blanks(c, i);
    if let Some(x) = read_bracketed(c, t) {
        return Some(x);
    }
    if let Some((l, j)) = read_literal(c, t) {
        return Some((Expr::Lit(l), j));
    }
    if let Some(x) = read_agg_call(c, t) {
        return Some(x);
    }
    if let Some((n, j)) = read_name(c, t) {
        return Some((Expr::Ident(n), j));
    }
    None
}

/// Reads an expression.
pub fn read_expr(c: &Vec<char>, i: usize) -> (r: Option<(Expr, usize)>)
    requires
        i <= c@.len(),
    ensures
        match r {
            Some((v, j)) => i < j <= c@.len() && expr(c@.skip(i as int)) == Some(
                (v@, c@.skip(j as int)),
            ),
            None => expr(c@.skip(i as int)) is None,
        },
{
    read_level(c, i, 0)
}

/// The names of the axes of a lens.
pub open spec fn axes_clause(s: Seq<char>) -> Found<Seq<Seq<char>>> {
    let p1 = gap(s);
    let p2 = word(p1->0, "AXES"@);
    let p3 = spaced_mark(p2->0, '(');
    let first = name(p3->0);
    let rest = comma_names((first->0).1);
    let p7 = mark(blanks(rest.1), ')');
    if p1 is Some && p2 is Some && p3 is Some && first is Some && p7 is Some {
        Some((seq![(first->0).0] + rest.0, p7->0))
    } else {
        None
    }
}

fn read_axes_clause(c: &Vec<char>, i: usize) -> (r: Option<(Vec<String>, usize)>)
    requires
        i <= c@.len(),
    ensures
        match r {
            Some((v, j)) => i < j <= c@.len() && axes_clause(c@.skip(i as int)) == Some(
                (texts_view(v@), c@.skip(j as int)),
            ),
            None => axes_clause(c@.skip(i as int)) is None,
        },
{
    let i: usize = read_gap(c, i)?;
    let i: usize = read_word(c, i, "AXES")?;
    let i: usize = read_spaced_mark(c, i, '(')?;
    let (first, i): (String, usize) = read_name(c, i)?;
    let (rest, i): (Vec<String>, usize) = read_comma_names(c, i);
    let i: usize = skip_blanks(c, i);
    let i: usize = read_mark(c, i, ')')?;
    let axes = prepend(first, rest);
    assert(texts_view(axes@) =~= seq![first@] + texts_view(rest@));
    Some((axes, i))
}

/// No names where the clause is missing.
pub open spec fn axes_or_none(axes: Option<Seq<Seq<char>>>) -> Seq<Seq<char>> {
    match axes {
        Some(names) => names,
        None => Seq::empty(),
    }
}

/// `LENS <name> <type> [AXES (<axis>, ...)]`.
pub open spec fn create_lens(s: Seq<char>) -> Found<StmtV> {
    let p1 = keyword(s, "LENS"@);
    let lens = name(p1->0);
    let p3 = gap((lens->0).1);
    let ty = type_word(p3->0);
    let axes = optional(axes_clause((ty->0).1), (ty->0).1);
    if p1 is Some && lens is Some && p3 is Some && ty is Some {
        Some((StmtV::Create { name: (lens->0).0, ty: (ty->0).0, axes: axes_or_none(axes.0) }, axes.1))
    } else {
        None
    }
}

fn read_create_lens(c: &Vec<char>, i: usize) -> (r: Option<(Stmt, usize)>)
    requires
        i <= c@.len(),
    ensures
        match r {
            Some((v, j)) => i <= j <= c@.len() && create_lens(c@.skip(i as int)) == Some(
                (v@, c@.skip(j as int)),
            ),
            None => create_lens(c@.skip(i as int)) is None,
        },
{
    let i: usize = read_keyword(c, i, "LENS")?;
    let (lens, i): (String, usize) = read_name(c, i)?;
    let i: usize = read_gap(c, i)?;
    let (ty, i): (Type, usize) = read_type(c, i)?;
    let (axes, i): (Option<Vec<String>>, usize) = match read_axes_clause(c, i) {
        Some((x, j)) => (Some(x), j),
        None => (None, i),
    };
    let axes: Vec<String> = match axes {
        Some(names) => names,
        None => {
            let none: Vec<String> = Vec::new();
            assert(texts_view(none@) =~= Seq::empty());
            none
        },
    };
    Some((Stmt::Create { name: lens, ty, axes }, i))
}

/// `DATABASE <name>`.
pub open spec fn create_database(s: Seq<char>) -> Found<StmtV> {
    let p1 = keyword(s, "DATABASE"@);
    let db = name(p1->0);
    if p1 is Some && db is Some {
        Some((StmtV::CreateDatabase { name: (db->0).0 }, (db->0).1))
    } else {
        None
    }
}

fn read_create_database(c: &Vec<char>, i: usize) -> (r: Option<(Stmt, usize)>)
    requires
        i <= c@.len(),
    ensures
        match r {
            Some((v, j)) => i <= j <= c@.len() && create_database(c@.skip(i as int)) == Some(
                (v@, c@.skip(j as int)),
            ),
            None => create_database(c@.skip(i as int)) is None,
        },
{
    let i: usize = read_keyword(c, i, "DATABASE")?;
    let (db, i): (String, usize) = read_name(c, i)?;
    Some((Stmt::CreateDatabase { name: db }, i))
}

/// `USER <name> PASSWORD "<password>"`.
pub open spec fn create_user(s: Seq<char>) -> Found<StmtV> {
    let p1 = keyword(s, "USER"@);
    let user = name(p1->0);
    let p3 = infix_word((user->0).1, "PASSWORD"@);
    let password = quoted(p3->0);
    if p1 is Some && user is Some && p3 is Some && password is Some {
        Some((StmtV::CreateUser { name: (user->0).0, password: (password->0).0 }, (password->0).1))
    } else {
        None
    }
}

fn read_create_user(c: &Vec<char>, i: usize) -> (r: Option<(Stmt, usize)>)
    requires
        i <= c@.len(),
    ensures
        match r {
            Some((v, j)) => i <= j <= c@.len() && create_user(c@.skip(i as int)) == Some(
                (v@, c@.skip(j as int)),
            ),
            None => create_user(c@.skip(i as int)) is None,
        },
{
    let i: usize = read_keyword(c, i, "USER")?;
    let (user, i): (String, usize) = read_name(c, i)?;
    let i: usize = read_infix_word(c, i, "PASSWORD")?;
    let (password, i): (String, usize) = read_quoted(c, i)?;
    Some((Stmt::CreateUser { name: user, password }, i))
}

/// The lens that a function watches: `LENS <lens>`.
pub open spec fn lens_suffix(s: Seq<char>) -> Found<Seq<char>> {
    let p1 = infix_word(s, "LENS"@);
    let lens = name(p1->0);
    if p1 is Some && lens is Some {
        Some(((lens->0).0, (lens->0).1))
    } else {
        None
    }
}

fn read_lens_suffix(c: &Vec<char>, i: usize) -> (r: Option<(String, usize)>)
    requires
        i <= c@.len(),
    ensures
        match r {
            Some((v, j)) => i < j <= c@.len() && lens_suffix(c@.skip(i as int)) == Some(
                (v@, c@.skip(j as int)),
            ),
            None => lens_suffix(c@.skip(i as int)) is None,
        },
{
    let i: usize = read_infix_word(c, i, "LENS")?;
    let (lens, i): (String, usize) = read_name(c, i)?;
    Some((lens, i))
}

/// `ON WRITE [LENS <lens>]`.
pub open spec fn write_trigger(s: Seq<char>) -> Found<TriggerKindV> {
    let p1 = infix_word(s, "ON"@);
    let p2 = word(p1->0, "WRITE"@);
    let lens = optional(lens_suffix(p2->0), p2->0);
    if p1 is Some && p2 is Some {
        Some((TriggerKindV::OnWrite { lens: lens.0 }, lens.1))
    } else {
        None
    }
}

fn read_write_trigger(c: &Vec<char>, i: usize) -> (r: Option<(TriggerKind, usize)>)
    requires
        i <= c@.len(),
    ensures
        match r {
            Some((v, j)) => i < j <= c@.len() && write_trigger(c@.skip(i as int)) == Some(
                (v@, c@.skip(j as int)),
            ),
            None => write_trigger(c@.skip(i as int)) is None,
        },
{
    let i: usize = read_infix_word(c, i, "ON")?;
    let i: usize = read_word(c, i, "WRITE")?;
    let (lens, i): (Option<String>, usize) = match read_lens_suffix(c, i) {
        Some((x, j)) => (Some(x), j),
        None => (None, i),
    };
    Some((TriggerKind::OnWrite { lens }, i))
}

/// `ON PERMISSION`.
pub open spec fn permission_trigger(s: Seq<char>) -> Found<TriggerKindV> {
    let p1 = infix_word(s, "ON"@);
    let p2 = word(p1->0, "PERMISSION"@);
    if p1 is Some && p2 is Some {
        Some((TriggerKindV::OnPermission, p2->0))
    } else {
        None
    }
}

fn read_permission_trigger(c: &Vec<char>, i: usize) -> (r: Option<(TriggerKind, usize)>)
    requires
        i <= c@.len(),
    ensures
        match r {
            Some((v, j)) => i < j <= c@.len() && permission_trigger(c@.skip(i as int)) == Some(
                (v@, c@.skip(j as int)),
            ),
            None => permission_trigger(c@.skip(i as int)) is None,
        },
{
    let i: usize = read_infix_word(c, i, "ON")?;
    let i: usize = read_word(c, i, "PERMISSION")?;
    Some((TriggerKind::OnPermission, i))
}

/// `SCHEDULE EVERY <seconds>`.
pub open spec fn schedule_trigger(s: Seq<char>) -> Found<TriggerKindV> {
    let p1 = infix_word(s, "SCHEDULE"@);
    let p2 = keyword(p1->0, "EVERY"@);
    let every_secs = integer(p2->0);
    if p1 is Some && p2 is Some && every_secs is Some {
        Some((TriggerKindV::Cron { every_secs: (every_secs->0).0 }, (every_secs->0).1))
    } else {
        None
    }
}

fn read_schedule_trigger(c: &Vec<char>, i: usize) -> (r: Option<(TriggerKind, usize)>)
    requires
        i <= c@.len(),
    ensures
        match r {
            Some((v, j)) => i < j <= c@.len() && schedule_trigger(c@.skip(i as int)) == Some(
                (v@, c@.skip(j as int)),
            ),
            None => schedule_trigger(c@.skip(i as int)) is None,
        },
{
    let i: usize = read_infix_word(c, i, "SCHEDULE")?;
    let i: usize = read_keyword(c, i, "EVERY")?;
    let (every_secs, i): (i64, usize) = read_integer(c, i)?;
    Some((TriggerKind::Cron { every_secs }, i))
}

/// What makes a function run.
pub open spec fn trigger_clause(s: Seq<char>) -> Found<TriggerKindV> {
    if write_trigger(s) is Some {
        write_trigger(s)
    } else if permission_trigger(s) is Some {
        permission_trigger(s)
    } else {
        schedule_trigger(s)
    }
}

fn read_trigger(c: &Vec<char>, i: usize) -> (r: Option<(TriggerKind, usize)>)
    requires
        i <= c@.len(),
    ensures
        match r {
            Some((v, j)) => i < j <= c@.len() && trigger_clause(c@.skip(i as int)) == Some(
                (v@, c@.skip(j as int)),
            ),
            None => trigger_clause(c@.skip(i as int)) is None,
        },
{
    if let Some(x) = read_write_trigger(c, i) {
        return Some(x);
    }
    if let Some(x) = read_permission_trigger(c, i) {
        return Some(x);
    }
    read_schedule_trigger(c, i)
}

pub open spec fn no_caps() -> Cap {
    Cap { run: false, at: false, range: false, log: false, metric: false, clock: false }
}

pub open spec fn either_caps(a: Cap, b: Cap) -> Cap {
    Cap {
        run: a.run || b.run,
        at: a.at || b.at,
        range: a.range || b.range,
        log: a.log || b.log,
        metric: a.metric || b.metric,
        clock: a.clock || b.clock,
    }
}

/// The union of capabilities.
pub open spec fn all_caps(caps: Seq<Cap>) -> Cap
    decreases caps.len(),
{
    if caps.len() == 0 {
        no_caps()
    } else {
        either_caps(all_caps(caps.drop_last()), caps.last())
    }
}

fn union_caps(caps: &Vec<Cap>) -> (r: Cap)
    ensures
        r == all_caps(caps@),
{
    let mut all = Cap {
        run: false,
        at: false,
        range: false,
        log: false,
        metric: false,
        clock: false,
    };
    let mut i: usize = 0;
    assert(caps@.take(0) =~= Seq::empty());
    while i < caps.len()
        invariant
            i <= caps@.len(),
            all == all_caps(caps@.take(i as int)),
        decreases caps@.len() - i,
    {
        assert(caps@.take(i + 1).drop_last() =~= caps@.take(i as int));
        let cap = caps[i];
        all = Cap {
            run: all.run || cap.run,
            at: all.at || cap.at,
            range: all.range || cap.range,
            log: all.log || cap.log,
            metric: all.metric || cap.metric,
            clock: all.clock || cap.clock,
        };
        i = i + 1;
    }
    assert(caps@.take(i as int) =~= caps@);
    all
}

/// The name of a capability.
pub open spec fn cap_word(s: Seq<char>) -> Found<Cap> {
    if word(s, "exec"@) is Some {
        Some((Cap { run: true, ..no_caps() }, word(s, "exec"@)->0))
    } else if word(s, "at"@) is Some {
        Some((Cap { at: true, ..no_caps() }, word(s, "at"@)->0))
    } else if word(s, "range"@) is Some {
        Some((Cap { range: true, ..no_caps() }, word(s, "range"@)->0))
    } else if word(s, "log"@) is Some {
        Some((Cap { log: true, ..no_caps() }, word(s, "log"@)->0))
    } else if word(s, "metric"@) is Some {
        Some((Cap { metric: true, ..no_caps() }, word(s, "metric"@)->0))
    } else if word(s, "clock"@) is Some {
        Some((Cap { clock: true, ..no_caps() }, word(s, "clock"@)->0))
    } else {
        None
    }
}

fn read_cap(c: &Vec<char>, i: usize) -> (r: Option<(Cap, usize)>)
    requires
        i <= c@.len(),
    ensures
        match r {
            Some((v, j)) => i < j <= c@.len() && cap_word(c@.skip(i as int)) == Some(
                (v, c@.skip(j as int)),
            ),
            None => cap_word(c@.skip(i as int)) is None,
        },
{
    proof {
        reveal_strlit("exec");
        reveal_strlit("at");
        reveal_strlit("range");
        reveal_strlit("log");
        reveal_strlit("metric");
        reveal_strlit("clock");
    }
    let none = Cap {
        run: false,
        at: false,
        range: false,
        log: false,
        metric: false,
        clock: false,
    };
    if let Some(j) = read_word(c, i, "exec") {
        return Some((Cap { run: true, ..none }, j));
    }
    if let Some(j) = read_word(c, i, "at") {
        return Some((Cap { at: true, ..none }, j));
    }
    if let Some(j) = read_word(c, i, "range") {
        return Some((Cap { range: true, ..none }, j));
    }
    if let Some(j) = read_word(c, i, "log") {
        return Some((Cap { log: true, ..none }, j));
    }
    if let Some(j) = read_word(c, i, "metric") {
        return Some((Cap { metric: true, ..none }, j));
    }
    if let Some(j) = read_word(c, i, "clock") {
        return Some((Cap { clock: true, ..none }, j));
    }
    None
}

pub open spec fn comma_cap(s: Seq<char>) -> Found<Cap> {
    let p1 = spaced_mark(s, ',');
    let item = cap_word(p1->0);
    if p1 is Some && item is Some {
        Some(((item->0).0, (item->0).1))
    } else {
        None
    }
}

fn read_comma_cap(c: &Vec<char>, i: usize) -> (r: Option<(Cap, usize)>)
    requires
        i <= c@.len(),
    ensures
        match r {
            Some((v, j)) => i < j <= c@.len() && comma_cap(c@.skip(i as int)) == Some(
                (v, c@.skip(j as int)),
            ),
            None => comma_cap(c@.skip(i as int)) is None,
        },
{
    let i: usize = read_spaced_mark(c, i, ',')?;
    let (item, i): (Cap, usize) = read_cap(c, i)?;
    Some((item, i))
}

pub open spec fn comma_caps(s: Seq<char>) -> (Seq<Cap>, Seq<char>) {
    items(|s: Seq<char>| comma_cap(s), s)
}

fn read_comma_caps(c: &Vec<char>, i: usize) -> (r: (Vec<Cap>, usize))
    requires
        i <= c@.len(),
    ensures
        i <= r.1 <= c@.len(),
        comma_caps(c@.skip(i as int)).0 =~= r.0@,
        comma_caps(c@.skip(i as int)).1 == c@.skip(r.1 as int),
{
    let ghost item = |s: Seq<char>| comma_cap(s);
    let mut out: Vec<Cap> = Vec::new();
    let mut j: usize = i;
    loop
        invariant
            i <= j <= c@.len(),
            item == (|s: Seq<char>| comma_cap(s)),
            items(item, c@.skip(i as int)).0 =~= out@ + items(
                item,
                c@.skip(j as int),
            ).0,
            items(item, c@.skip(i as int)).1 == items(item, c@.skip(j as int)).1,
        decreases c@.len() - j,
    {
        match read_comma_cap(c, j) {
            Some((v, k)) => {
                let ghost before = out@;
                out.push(v);
                proof {
                    let tail = items(item, c@.skip(k as int)).0;
                    assert(item(c@.skip(j as int)) == Some((v, c@.skip(k as int))));
                    assert(out@ =~= before.push(v));
                    assert(before + (seq![v] + tail) =~= out@ + tail);
                }
                j = k;
            },
            None => {
                assert(item(c@.skip(j as int)) is None);
                return (out, j);
            },
        }
    }
}

pub open spec fn kind_or_demand(kind: Option<TriggerKindV>) -> TriggerKindV {
    match kind {
        Some(k) => k,
        None => TriggerKindV::OnDemand,
    }
}

/// `FUNCTION <name> [<trigger>] CAPS <cap>, ... AS "<body>"`.
pub open spec fn create_function(s: Seq<char>) -> Found<StmtV> {
    let p1 = keyword(s, "FUNCTION"@);
    let func = name(p1->0);
    let kind = optional(trigger_clause((func->0).1), (func->0).1);
    let p4 = infix_word(kind.1, "CAPS"@);
    let first = cap_word(p4->0);
    let rest = comma_caps((first->0).1);
    let p7 = infix_word(rest.1, "AS"@);
    let body = quoted(p7->0);
    if p1 is Some && func is Some && p4 is Some && first is Some && p7 is Some && body is Some {
        Some(
            (
                StmtV::CreateFunction {
                    name: (func->0).0,
                    kind: kind_or_demand(kind.0),
                    caps: all_caps(seq![(first->0).0] + rest.0),
                    body: (body->0).0,
                },
                (body->0).1,
            ),
        )
    } else {
        None
    }
}

fn read_create_function(c: &Vec<char>, i: usize) -> (r: Option<(Stmt, usize)>)
    requires
        i <= c@.len(),
    ensures
        match r {
            Some((v, j)) => i <= j <= c@.len() && create_function(c@.skip(i as int)) == Some(
                (v@, c@.skip(j as int)),
            ),
            None => create_function(c@.skip(i as int)) is None,
        },
{
    let i: usize = read_keyword(c, i, "FUNCTION")?;
    let (func, i): (String, usize) = read_name(c, i)?;
    let (kind, i): (Option<TriggerKind>, usize) = match read_trigger(c, i) {
        Some((x, j)) => (Some(x), j),
        None => (None, i),
    };
    let i: usize = read_infix_word(c, i, "CAPS")?;
    let (first, i): (Cap, usize) = read_cap(c, i)?;
    let (rest, i): (Vec<Cap>, usize) = read_comma_caps(c, i);
    let i: usize = read_infix_word(c, i, "AS")?;
    let (body, i): (String, usize) = read_quoted(c, i)?;
    let kind: TriggerKind = match kind {
        Some(k) => k,
        None => TriggerKind::OnDemand,
    };
    let caps = union_caps(&prepend(first, rest));
    Some((Stmt::CreateFunction { name: func, kind, caps, body }, i))
}

pub open spec fn create_any(s: Seq<char>) -> Found<StmtV> {
    if create_lens(s) is Some {
        create_lens(s)
    } else if create_database(s) is Some {
        create_database(s)
    } else if create_user(s) is Some {
        create_user(s)
    } else {
        create_function(s)
    }
}

fn read_create_any(c: &Vec<char>, i: usize) -> (r: Option<(Stmt, usize)>)
    requires
        i <= c@.len(),
    ensures
        match r {
            Some((v, j)) => i <= j <= c@.len() && create_any(c@.skip(i as int)) == Some(
                (v@, c@.skip(j as int)),
            ),
            None => create_any(c@.skip(i as int)) is None,
        },
{
    if let Some(x) = read_create_lens(c, i) {
        return Some(x);
    }
    if let Some(x) = read_create_database(c, i) {
        return Some(x);
    }
    if let Some(x) = read_create_user(c, i) {
        return Some(x);
    }
    read_create_function(c, i)
}

/// `CREATE ...`.
pub open spec fn create(s: Seq<char>) -> Found<StmtV> {
    let p1 = keyword(s, "CREATE"@);
    let made = create_any(p1->0);
    if p1 is Some && made is Some {
        Some(((made->0).0, (made->0).1))
    } else {
        None
    }
}

fn read_create(c: &Vec<char>, i: usize) -> (r: Option<(Stmt, usize)>)
    requires
        i <= c@.len(),
    ensures
        match r {
            Some((v, j)) => i <= j <= c@.len() && create(c@.skip(i as int)) == Some(
                (v@, c@.skip(j as int)),
            ),
            None => create(c@.skip(i as int)) is None,
        },
{
    let i: usize = read_keyword(c, i, "CREATE")?;
    let (made, i): (Stmt, usize) = read_create_any(c, i)?;
    Some((made, i))
}

/// The taus of an append: boxes where the text starts with a bracket, triples otherwise.
pub open spec fn append_body(lens: Seq<char>, s: Seq<char>) -> Found<StmtV> {
    if mark(s, '[') is Some {
        let first = nd_box(s);
        let rest = comma_boxes((first->0).1);
        if first is Some {
            Some((StmtV::AppendNd { name: lens, taus: seq![(first->0).0] + rest.0 }, rest.1))
        } else {
            None
        }
    } else {
        let first = triple(s);
        let rest = comma_triples((first->0).1);
        if first is Some {
            Some((StmtV::Append { name: lens, taus: seq![(first->0).0] + rest.0 }, rest.1))
        } else {
            None
        }
    }
}

fn read_append_body(c: &Vec<char>, i: usize, lens: String) -> (r: Option<(Stmt, usize)>)
    requires
        i <= c@.len(),
    ensures
        match r {
            Some((v, j)) => i <= j <= c@.len() && append_body(lens@, c@.skip(i as int)) == Some(
                (v@, c@.skip(j as int)),
            ),
            None => append_body(lens@, c@.skip(i as int)) is None,
        },
{
    if let Some(_) = read_mark(c, i, '[') {
        let (first, i): ((Vec<(i64, i64)>, Literal), usize) = read_nd_box(c, i)?;
        let (rest, i): (Vec<(Vec<(i64, i64)>, Literal)>, usize) = read_comma_boxes(c, i);
        let taus = prepend(first, rest);
        assert(boxes_view(taus@) =~= seq![(first.0@, first.1@)] + boxes_view(rest@));
        Some((Stmt::AppendNd { name: lens, taus }, i))
    } else {
        let (first, i): ((i64, i64, Literal), usize) = read_triple(c, i)?;
        let (rest, i): (Vec<(i64, i64, Literal)>, usize) = read_comma_triples(c, i);
        let taus = prepend(first, rest);
        assert(taus_view(taus@) =~= seq![(first.0, first.1, first.2@)] + taus_view(rest@));
        Some((Stmt::Append { name: lens, taus }, i))
    }
}

/// `APPEND LENS <name> <start> <end> <value>, ...`, or with boxes.
pub open spec fn append(s: Seq<char>) -> Found<StmtV> {
    let p1 = keyword(s, "APPEND"@);
    let p2 = keyword(p1->0, "LENS"@);
    let lens = name(p2->0);
    let p4 = gap((lens->0).1);
    if p1 is Some && p2 is Some && lens is Some && p4 is Some {
        append_body((lens->0).0, p4->0)
    } else {
        None
    }
}

fn read_append(c: &Vec<char>, i: usize) -> (r: Option<(Stmt, usize)>)
    requires
        i <= c@.len(),
    ensures
        match r {
            Some((v, j)) => i <= j <= c@.len() && append(c@.skip(i as int)) == Some(
                (v@, c@.skip(j as int)),
            ),
            None => append(c@.skip(i as int)) is None,
        },
{
    let i: usize = read_keyword(c, i, "APPEND")?;
    let i: usize = read_keyword(c, i, "LENS")?;
    let (lens, i): (String, usize) = read_name(c, i)?;
    let i: usize = read_gap(c, i)?;
    read_append_body(c, i, lens)
}

/// The taus of a batch: triples apart by semicolons, none or more.
pub open spec fn batch_triples(s: Seq<char>) -> (Seq<(i64, i64, LiteralV)>, Seq<char>) {
    match triple(s) {
        Some((first, s1)) => (seq![first] + semicolon_triples(s1).0, semicolon_triples(s1).1),
        None => (Seq::empty(), s),
    }
}

fn read_batch_triples(c: &Vec<char>, i: usize) -> (r: (Vec<(i64, i64, Literal)>, usize))
    requires
        i <= c@.len(),
    ensures
        i <= r.1 <= c@.len(),
        batch_triples(c@.skip(i as int)).0 =~= taus_view(r.0@),
        batch_triples(c@.skip(i as int)).1 == c@.skip(r.1 as int),
{
    match read_triple(c, i) {
        Some((first, i)) => {
            let (rest, i): (Vec<(i64, i64, Literal)>, usize) = read_semicolon_triples(c, i);
            let taus = prepend(first, rest);
            assert(taus_view(taus@) =~= seq![(first.0, first.1, first.2@)] + taus_view(rest@));
            (taus, i)
        },
        None => (Vec::new(), i),
    }
}

/// The text without the semicolon that it may start with.
pub open spec fn past_semicolon(s: Seq<char>) -> Seq<char> {
    if mark(s, ';') is Some {
        s.drop_first()
    } else {
        s
    }
}

/// `BATCH APPEND LENS <name> { <start> <end> <value> ; ... }`.
pub open spec fn batch_append(s: Seq<char>) -> Found<StmtV> {
    let p1 = keyword(s, "BATCH"@);
    let p2 = keyword(p1->0, "APPEND"@);
    let p3 = keyword(p2->0, "LENS"@);
    let lens = name(p3->0);
    let p5 = spaced_mark((lens->0).1, '{');
    let taus = batch_triples(p5->0);
    let p7 = mark(blanks(past_semicolon(blanks(taus.1))), '}');
    if p1 is Some && p2 is Some && p3 is Some && lens is Some && p5 is Some && p7 is Some {
        Some((StmtV::BatchAppend { name: (lens->0).0, taus: taus.0 }, p7->0))
    } else {
        None
    }
}

fn read_batch_append(c: &Vec<char>, i: usize) -> (r: Option<(Stmt, usize)>)
    requires
        i <= c@.len(),
    ensures
        match r {
            Some((v, j)) => i <= j <= c@.len() && batch_append(c@.skip(i as int)) == Some(
                (v@, c@.skip(j as int)),
            ),
            None => batch_append(c@.skip(i as int)) is None,
        },
{
    let i: usize = read_keyword(c, i, "BATCH")?;
    let i: usize = read_keyword(c, i, "APPEND")?;
    let i: usize = read_keyword(c, i, "LENS")?;
    let (lens, i): (String, usize) = read_name(c, i)?;
    let i: usize = read_spaced_mark(c, i, '{')?;
    let (taus, i): (Vec<(i64, i64, Literal)>, usize) = read_batch_triples(c, i);
    let i: usize = skip_blanks(c, i);
    let i: usize = match read_mark(c, i, ';') {
        Some(j) => j,
        None => i,
    };
    let i: usize = skip_blanks(c, i);
    let i: usize = read_mark(c, i, '}')?;
    Some((Stmt::BatchAppend { name: lens, taus }, i))
}

/// `COPY LENS <name> FROM "<path>"`.
pub open spec fn copy(s: Seq<char>) -> Found<StmtV> {
    let p1 = keyword(s, "COPY"@);
    let p2 = keyword(p1->0, "LENS"@);
    let lens = name(p2->0);
    let p4 = infix_word((lens->0).1, "FROM"@);
    let path = quoted(p4->0);
    if p1 is Some && p2 is Some && lens is Some && p4 is Some && path is Some {
        Some((StmtV::Copy { name: (lens->0).0, path: (path->0).0 }, (path->0).1))
    } else {
        None
    }
}

fn read_copy(c: &Vec<char>, i: usize) -> (r: Option<(Stmt, usize)>)
    requires
        i <= c@.len(),
    ensures
        match r {
            Some((v, j)) => i <= j <= c@.len() && copy(c@.skip(i as int)) == Some(
                (v@, c@.skip(j as int)),
            ),
            None => copy(c@.skip(i as int)) is None,
        },
{
    let i: usize = read_keyword(c, i, "COPY")?;
    let i: usize = read_keyword(c, i, "LENS")?;
    let (lens, i): (String, usize) = read_name(c, i)?;
    let i: usize = read_infix_word(c, i, "FROM")?;
    let (path, i): (String, usize) = read_quoted(c, i)?;
    Some((Stmt::Copy { name: lens, path }, i))
}

/// The window of a derived lens: `OVER <start> <end>`.
pub open spec fn over_clause(s: Seq<char>) -> Found<(i64, i64)> {
    let p1 = infix_word(s, "OVER"@);
    let start = integer(p1->0);
    let p3 = gap((start->0).1);
    let end = integer(p3->0);
    if p1 is Some && start is Some && p3 is Some && end is Some {
        Some((((start->0).0, (end->0).0), (end->0).1))
    } else {
        None
    }
}

fn read_over_clause(c: &Vec<char>, i: usize) -> (r: Option<((i64, i64), usize)>)
    requires
        i <= c@.len(),
    ensures
        match r {
            Some((v, j)) => i < j <= c@.len() && over_clause(c@.skip(i as int)) == Some(
                (v, c@.skip(j as int)),
            ),
            None => over_clause(c@.skip(i as int)) is None,
        },
{
    let i: usize = read_infix_word(c, i, "OVER")?;
    let (start, i): (i64, usize) = read_integer(c, i)?;
    let i: usize = read_gap(c, i)?;
    let (end, i): (i64, usize) = read_integer(c, i)?;
    Some(((start, end), i))
}

/// `DERIVE LENS <name> AS <expr> [OVER <start> <end>]`.
pub open spec fn derive_stmt(s: Seq<char>) -> Found<StmtV> {
    let p1 = keyword(s, "DERIVE"@);
    let p2 = keyword(p1->0, "LENS"@);
    let lens = name(p2->0);
    let p4 = infix_word((lens->0).1, "AS"@);
    let body = expr(p4->0);
    let range = optional(over_clause((body->0).1), (body->0).1);
    if p1 is Some && p2 is Some && lens is Some && p4 is Some && body is Some {
        Some((StmtV::Derive { name: (lens->0).0, expr: (body->0).0, range: range.0 }, range.1))
    } else {
        None
    }
}

fn read_derive(c: &Vec<char>, i: usize) -> (r: Option<(Stmt, usize)>)
    requires
        i <= c@.len(),
    ensures
        match r {
            Some((v, j)) => i <= j <= c@.len() && derive_stmt(c@.skip(i as int)) == Some(
                (v@, c@.skip(j as int)),
            ),
            None => derive_stmt(c@.skip(i as int)) is None,
        },
{
    let i: usize = read_keyword(c, i, "DERIVE")?;
    let i: usize = read_keyword(c, i, "LENS")?;
    let (lens, i): (String, usize) = read_name(c, i)?;
    let i: usize = read_infix_word(c, i, "AS")?;
    let (body, i): (Expr, usize) = read_expr(c, i)?;
    let (range, i): (Option<(i64, i64)>, usize) = match read_over_clause(c, i) {
        Some((x, j)) => (Some(x), j),
        None => (None, i),
    };
    Some((Stmt::Derive { name: lens, expr: body, range }, i))
}

/// `XDERIVE LENS <name> AS <expr> [OVER <start> <end>]`.
pub open spec fn xderive(s: Seq<char>) -> Found<StmtV> {
    let p1 = keyword(s, "XDERIVE"@);
    let p2 = keyword(p1->0, "LENS"@);
    let lens = name(p2->0);
    let p4 = infix_word((lens->0).1, "AS"@);
    let body = expr(p4->0);
    let range = optional(over_clause((body->0).1), (body->0).1);
    if p1 is Some && p2 is Some && lens is Some && p4 is Some && body is Some {
        Some((StmtV::Xderive { name: (lens->0).0, expr: (body->0).0, range: range.0 }, range.1))
    } else {
        None
    }
}

fn read_xderive(c: &Vec<char>, i: usize) -> (r: Option<(Stmt, usize)>)
    requires
        i <= c@.len(),
    ensures
        match r {
            Some((v, j)) => i <= j <= c@.len() && xderive(c@.skip(i as int)) == Some(
                (v@, c@.skip(j as int)),
            ),
            None => xderive(c@.skip(i as int)) is None,
        },
{
    let i: usize = read_keyword(c, i, "XDERIVE")?;
    let i: usize = read_keyword(c, i, "LENS")?;
    let (lens, i): (String, usize) = read_name(c, i)?;
    let i: usize = read_infix_word(c, i, "AS")?;
    let (body, i): (Expr, usize) = read_expr(c, i)?;
    let (range, i): (Option<(i64, i64)>, usize) = match read_over_clause(c, i) {
        Some((x, j)) => (Some(x), j),
        None => (None, i),
    };
    Some((Stmt::Xderive { name: lens, expr: body, range }, i))
}

/// A transaction time: `AS OF <time>`.
pub open spec fn as_of_clause(s: Seq<char>) -> Found<i64> {
    let p1 = infix_word(s, "AS"@);
    let p2 = keyword(p1->0, "OF"@);
    let at = integer(p2->0);
    if p1 is Some && p2 is Some && at is Some {
        Some(((at->0).0, (at->0).1))
    } else {
        None
    }
}

fn read_as_of_clause(c: &Vec<char>, i: usize) -> (r: Option<(i64, usize)>)
    requires
        i <= c@.len(),
    ensures
        match r {
            Some((v, j)) => i < j <= c@.len() && as_of_clause(c@.skip(i as int)) == Some(
                (v, c@.skip(j as int)),
            ),
            None => as_of_clause(c@.skip(i as int)) is None,
        },
{
    let i: usize = read_infix_word(c, i, "AS")?;
    let i: usize = read_keyword(c, i, "OF")?;
    let (at, i): (i64, usize) = read_integer(c, i)?;
    Some((at, i))
}

/// A layer: `LAYER <id>`.
pub open spec fn layer_clause(s: Seq<char>) -> Found<u64> {
    let p1 = infix_word(s, "LAYER"@);
    let id = unsigned(p1->0);
    if p1 is Some && id is Some {
        Some(((id->0).0, (id->0).1))
    } else {
        None
    }
}

fn read_layer_clause(c: &Vec<char>, i: usize) -> (r: Option<(u64, usize)>)
    requires
        i <= c@.len(),
    ensures
        match r {
            Some((v, j)) => i < j <= c@.len() && layer_clause(c@.skip(i as int)) == Some(
                (v, c@.skip(j as int)),
            ),
            None => layer_clause(c@.skip(i as int)) is None,
        },
{
    let i: usize = read_infix_word(c, i, "LAYER")?;
    let (id, i): (u64, usize) = read_unsigned(c, i)?;
    Some((id, i))
}

/// What follows the first coordinate of a point lookup.
pub open spec fn at_tail(lens: Seq<char>, t: i64, s: Seq<char>) -> (StmtV, Seq<char>) {
    let more = next_integers(s);
    let as_of = as_of_clause(more.1);
    let layer = layer_clause(more.1);
    if more.0.len() > 0 {
        let (as_of, rest) = optional(as_of, more.1);
        (StmtV::AtNd { name: lens, ts: seq![t] + more.0, as_of }, rest)
    } else if as_of is Some {
        (StmtV::AtAsOf { name: lens, t, as_of: (as_of->0).0 }, (as_of->0).1)
    } else if layer is Some {
        (StmtV::AtLayer { name: lens, t, layer_id: (layer->0).0 }, (layer->0).1)
    } else {
        (StmtV::At { name: lens, t }, more.1)
    }
}

/// `AT LENS <name> <t>`, with more coordinates, a transaction time or a layer.
pub open spec fn at(s: Seq<char>) -> Found<StmtV> {
    let p1 = keyword(s, "AT"@);
    let p2 = keyword(p1->0, "LENS"@);
    let lens = name(p2->0);
    let p4 = gap((lens->0).1);
    let t = integer(p4->0);
    if p1 is Some && p2 is Some && lens is Some && p4 is Some && t is Some {
        Some(at_tail((lens->0).0, (t->0).0, (t->0).1))
    } else {
        None
    }
}

fn read_at(c: &Vec<char>, i: usize) -> (r: Option<(Stmt, usize)>)
    requires
        i <= c@.len(),
    ensures
        match r {
            Some((v, j)) => i <= j <= c@.len() && at(c@.skip(i as int)) == Some(
                (v@, c@.skip(j as int)),
            ),
            None => at(c@.skip(i as int)) is None,
        },
{
    let i: usize = read_keyword(c, i, "AT")?;
    let i: usize = read_keyword(c, i, "LENS")?;
    let (lens, i): (String, usize) = read_name(c, i)?;
    let i: usize = read_gap(c, i)?;
    let (t, i): (i64, usize) = read_integer(c, i)?;
    let (more, i): (Vec<i64>, usize) = read_next_integers(c, i);
    if more.len() > 0 {
        let ts = prepend(t, more);
        if let Some((at, j)) = read_as_of_clause(c, i) {
            return Some((Stmt::AtNd { name: lens, ts, as_of: Some(at) }, j));
        }
        return Some((Stmt::AtNd { name: lens, ts, as_of: None }, i));
    }
    if let Some((at, j)) = read_as_of_clause(c, i) {
        return Some((Stmt::AtAsOf { name: lens, t, as_of: at }, j));
    }
    if let Some((id, j)) = read_layer_clause(c, i) {
        return Some((Stmt::AtLayer { name: lens, t, layer_id: id }, j));
    }
    Some((Stmt::At { name: lens, t }, i))
}

/// Where the other axes are held: `AT (<t>, ...)`.
pub open spec fn fixed_clause(s: Seq<char>) -> Found<Seq<i64>> {
    let p1 = gap(s);
    let p2 = word(p1->0, "AT"@);
    let p3 = spaced_mark(p2->0, '(');
    let first = integer(p3->0);
    let rest = comma_integers((first->0).1);
    let p7 = mark(blanks(rest.1), ')');
    if p1 is Some && p2 is Some && p3 is Some && first is Some && p7 is Some {
        Some((seq![(first->0).0] + rest.0, p7->0))
    } else {
        None
    }
}

fn read_fixed_clause(c: &Vec<char>, i: usize) -> (r: Option<(Vec<i64>, usize)>)
    requires
        i <= c@.len(),
    ensures
        match r {
            Some((v, j)) => i < j <= c@.len() && fixed_clause(c@.skip(i as int)) == Some(
                (v@, c@.skip(j as int)),
            ),
            None => fixed_clause(c@.skip(i as int)) is None,
        },
{
    let i: usize = read_gap(c, i)?;
    let i: usize = read_word(c, i, "AT")?;
    let i: usize = read_spaced_mark(c, i, '(')?;
    let (first, i): (i64, usize) = read_integer(c, i)?;
    let (rest, i): (Vec<i64>, usize) = read_comma_integers(c, i);
    let i: usize = skip_blanks(c, i);
    let i: usize = read_mark(c, i, ')')?;
    Some((prepend(first, rest), i))
}

/// A filter: `WHERE <expr>`.
pub open spec fn where_clause(s: Seq<char>) -> Found<ExprV> {
    let p1 = infix_word(s, "WHERE"@);
    let cond = expr(p1->0);
    if p1 is Some && cond is Some {
        Some(((cond->0).0, (cond->0).1))
    } else {
        None
    }
}

fn read_where_clause(c: &Vec<char>, i: usize) -> (r: Option<(Expr, usize)>)
    requires
        i <= c@.len(),
    ensures
        match r {
            Some((v, j)) => i < j <= c@.len() && where_clause(c@.skip(i as int)) == Some(
                (v@, c@.skip(j as int)),
            ),
            None => where_clause(c@.skip(i as int)) is None,
        },
{
    let i: usize = read_infix_word(c, i, "WHERE")?;
    let (cond, i): (Expr, usize) = read_expr(c, i)?;
    Some((cond, i))
}

pub open spec fn limit_clause(s: Seq<char>) -> Found<u64> {
    let p1 = infix_word(s, "LIMIT"@);
    let n = unsigned(p1->0);
    if p1 is Some && n is Some {
        Some(((n->0).0, (n->0).1))
    } else {
        None
    }
}

fn read_limit_clause(c: &Vec<char>, i: usize) -> (r: Option<(u64, usize)>)
    requires
        i <= c@.len(),
    ensures
        match r {
            Some((v, j)) => i < j <= c@.len() && limit_clause(c@.skip(i as int)) == Some(
                (v, c@.skip(j as int)),
            ),
            None => limit_clause(c@.skip(i as int)) is None,
        },
{
    let i: usize = read_infix_word(c, i, "LIMIT")?;
    let (n, i): (u64, usize) = read_unsigned(c, i)?;
    Some((n, i))
}

pub open spec fn offset_clause(s: Seq<char>) -> Found<u64> {
    let p1 = infix_word(s, "OFFSET"@);
    let n = unsigned(p1->0);
    if p1 is Some && n is Some {
        Some(((n->0).0, (n->0).1))
    } else {
        None
    }
}

fn read_offset_clause(c: &Vec<char>, i: usize) -> (r: Option<(u64, usize)>)
    requires
        i <= c@.len(),
    ensures
        match r {
            Some((v, j)) => i < j <= c@.len() && offset_clause(c@.skip(i as int)) == Some(
                (v, c@.skip(j as int)),
            ),
            None => offset_clause(c@.skip(i as int)) is None,
        },
{
    let i: usize = read_infix_word(c, i, "OFFSET")?;
    let (n, i): (u64, usize) = read_unsigned(c, i)?;
    Some((n, i))
}

/// What follows the window of a range scan.
pub open spec fn range_tail(lens: Seq<char>, start: i64, end: i64, s: Seq<char>) -> (
    StmtV,
    Seq<char>,
) {
    let fixed = fixed_clause(s);
    if fixed is Some {
        (StmtV::RangeNd { name: lens, start, end, fixed: (fixed->0).0 }, (fixed->0).1)
    } else {
        let filter = optional(where_clause(s), s);
        let limit = optional(limit_clause(filter.1), filter.1);
        let offset = optional(offset_clause(limit.1), limit.1);
        (
            StmtV::Range {
                name: lens,
                start,
                end,
                filter: filter.0,
                limit: limit.0,
                offset: offset.0,
            },
            offset.1,
        )
    }
}

/// `RANGE LENS <name> <start> <end>`, with the other axes held, or with a filter, a limit
/// and an offset.
pub open spec fn range(s: Seq<char>) -> Found<StmtV> {
    let p1 = keyword(s, "RANGE"@);
    let p2 = keyword(p1->0, "LENS"@);
    let lens = name(p2->0);
    let p4 = gap((lens->0).1);
    let start = integer(p4->0);
    let p6 = gap((start->0).1);
    let end = integer(p6->0);
    if p1 is Some && p2 is Some && lens is Some && p4 is Some && start is Some && p6 is Some
        && end is Some {
        Some(range_tail((lens->0).0, (start->0).0, (end->0).0, (end->0).1))
    } else {
        None
    }
}

fn read_range(c: &Vec<char>, i: usize) -> (r: Option<(Stmt, usize)>)
    requires
        i <= c@.len(),
    ensures
        match r {
            Some((v, j)) => i <= j <= c@.len() && range(c@.skip(i as int)) == Some(
                (v@, c@.skip(j as int)),
            ),
            None => range(c@.skip(i as int)) is None,
        },
{
    let i: usize = read_keyword(c, i, "RANGE")?;
    let i: usize = read_keyword(c, i, "LENS")?;
    let (lens, i): (String, usize) = read_name(c, i)?;
    let i: usize = read_gap(c, i)?;
    let (start, i): (i64, usize) = read_integer(c, i)?;
    let i: usize = read_gap(c, i)?;
    let (end, i): (i64, usize) = read_integer(c, i)?;
    if let Some((fixed, j)) = read_fixed_clause(c, i) {
        return Some((Stmt::RangeNd { name: lens, start, end, fixed }, j));
    }
    let (filter, i): (Option<Expr>, usize) = match read_where_clause(c, i) {
        Some((x, j)) => (Some(x), j),
        None => (None, i),
    };
    let (limit, i): (Option<u64>, usize) = match read_limit_clause(c, i) {
        Some((x, j)) => (Some(x), j),
        None => (None, i),
    };
    let (offset, i): (Option<u64>, usize) = match read_offset_clause(c, i) {
        Some((x, j)) => (Some(x), j),
        None => (None, i),
    };
    Some((Stmt::Range { name: lens, start, end, filter, limit, offset }, i))
}

/// `REDUCE LENS <name> <start> <end> USING <func>`.
pub open spec fn reduce(s: Seq<char>) -> Found<StmtV> {
    let p1 = keyword(s, "REDUCE"@);
    let p2 = keyword(p1->0, "LENS"@);
    let lens = name(p2->0);
    let p4 = gap((lens->0).1);
    let start = integer(p4->0);
    let p6 = gap((start->0).1);
    let end = integer(p6->0);
    let p8 = infix_word((end->0).1, "USING"@);
    let func = agg_word(p8->0);
    if p1 is Some && p2 is Some && lens is Some && p4 is Some && start is Some && p6 is Some
        && end is Some && p8 is Some && func is Some {
        Some(
            (
                StmtV::Reduce {
                    name: (lens->0).0,
                    start: (start->0).0,
                    end: (end->0).0,
                    func: (func->0).0,
                },
                (func->0).1,
            ),
        )
    } else {
        None
    }
}

fn read_reduce(c: &Vec<char>, i: usize) -> (r: Option<(Stmt, usize)>)
    requires
        i <= c@.len(),
    ensures
        match r {
            Some((v, j)) => i <= j <= c@.len() && reduce(c@.skip(i as int)) == Some(
                (v@, c@.skip(j as int)),
            ),
            None => reduce(c@.skip(i as int)) is None,
        },
{
    let i: usize = read_keyword(c, i, "REDUCE")?;
    let i: usize = read_keyword(c, i, "LENS")?;
    let (lens, i): (String, usize) = read_name(c, i)?;
    let i: usize = read_gap(c, i)?;
    let (start, i): (i64, usize) = read_integer(c, i)?;
    let i: usize = read_gap(c, i)?;
    let (end, i): (i64, usize) = read_integer(c, i)?;
    let i: usize = read_infix_word(c, i, "USING")?;
    let (func, i): (AggFunc, usize) = read_agg(c, i)?;
    Some((Stmt::Reduce { name: lens, start, end, func }, i))
}

/// `LENS <name>`.
pub open spec fn drop_lens(s: Seq<char>) -> Found<StmtV> {
    let p1 = keyword(s, "LENS"@);
    let target = name(p1->0);
    if p1 is Some && target is Some {
        Some((StmtV::Drop { name: (target->0).0 }, (target->0).1))
    } else {
        None
    }
}

fn read_drop_lens(c: &Vec<char>, i: usize) -> (r: Option<(Stmt, usize)>)
    requires
        i <= c@.len(),
    ensures
        match r {
            Some((v, j)) => i <= j <= c@.len() && drop_lens(c@.skip(i as int)) == Some(
                (v@, c@.skip(j as int)),
            ),
            None => drop_lens(c@.skip(i as int)) is None,
        },
{
    let i: usize = read_keyword(c, i, "LENS")?;
    let (target, i): (String, usize) = read_name(c, i)?;
    Some((Stmt::Drop { name: target }, i))
}

/// `DATABASE <name>`.
pub open spec fn drop_database(s: Seq<char>) -> Found<StmtV> {
    let p1 = keyword(s, "DATABASE"@);
    let target = name(p1->0);
    if p1 is Some && target is Some {
        Some((StmtV::DropDatabase { name: (target->0).0 }, (target->0).1))
    } else {
        None
    }
}

fn read_drop_database(c: &Vec<char>, i: usize) -> (r: Option<(Stmt, usize)>)
    requires
        i <= c@.len(),
    ensures
        match r {
            Some((v, j)) => i <= j <= c@.len() && drop_database(c@.skip(i as int)) == Some(
                (v@, c@.skip(j as int)),
            ),
            None => drop_database(c@.skip(i as int)) is None,
        },
{
    let i: usize = read_keyword(c, i, "DATABASE")?;
    let (target, i): (String, usize) = read_name(c, i)?;
    Some((Stmt::DropDatabase { name: target }, i))
}

/// `USER <name>`.
pub open spec fn drop_user(s: Seq<char>) -> Found<StmtV> {
    let p1 = keyword(s, "USER"@);
    let target = name(p1->0);
    if p1 is Some && target is Some {
        Some((StmtV::DropUser { name: (target->0).0 }, (target->0).1))
    } else {
        None
    }
}

fn read_drop_user(c: &Vec<char>, i: usize) -> (r: Option<(Stmt, usize)>)
    requires
        i <= c@.len(),
    ensures
        match r {
            Some((v, j)) => i <= j <= c@.len() && drop_user(c@.skip(i as int)) == Some(
                (v@, c@.skip(j as int)),
            ),
            None => drop_user(c@.skip(i as int)) is None,
        },
{
    let i: usize = read_keyword(c, i, "USER")?;
    let (target, i): (String, usize) = read_name(c, i)?;
    Some((Stmt::DropUser { name: target }, i))
}

/// `FUNCTION <name>`.
pub open spec fn drop_function(s: Seq<char>) -> Found<StmtV> {
    let p1 = keyword(s, "FUNCTION"@);
    let target = name(p1->0);
    if p1 is Some && target is Some {
        Some((StmtV::DropFunction { name: (target->0).0 }, (target->0).1))
    } else {
        None
    }
}

fn read_drop_function(c: &Vec<char>, i: usize) -> (r: Option<(Stmt, usize)>)
    requires
        i <= c@.len(),
    ensures
        match r {
            Some((v, j)) => i <= j <= c@.len() && drop_function(c@.skip(i as int)) == Some(
                (v@, c@.skip(j as int)),
            ),
            None => drop_function(c@.skip(i as int)) is None,
        },
{
    let i: usize = read_keyword(c, i, "FUNCTION")?;
    let (target, i): (String, usize) = read_name(c, i)?;
    Some((Stmt::DropFunction { name: target }, i))
}

pub open spec fn drop_any(s: Seq<char>) -> Found<StmtV> {
    if drop_lens(s) is Some {
        drop_lens(s)
    } else if drop_database(s) is Some {
        drop_database(s)
    } else if drop_user(s) is Some {
        drop_user(s)
    } else {
        drop_function(s)
    }
}

fn read_drop_any(c: &Vec<char>, i: usize) -> (r: Option<(Stmt, usize)>)
    requires
        i <= c@.len(),
    ensures
        match r {
            Some((v, j)) => i <= j <= c@.len() && drop_any(c@.skip(i as int)) == Some(
                (v@, c@.skip(j as int)),
            ),
            None => drop_any(c@.skip(i as int)) is None,
        },
{
    if let Some(x) = read_drop_lens(c, i) {
        return Some(x);
    }
    if let Some(x) = read_drop_database(c, i) {
        return Some(x);
    }
    if let Some(x) = read_drop_user(c, i) {
        return Some(x);
    }
    read_drop_function(c, i)
}

/// `DROP ...`.
pub open spec fn drop_stmt(s: Seq<char>) -> Found<StmtV> {
    let p1 = keyword(s, "DROP"@);
    let made = drop_any(p1->0);
    if p1 is Some && made is Some {
        Some(((made->0).0, (made->0).1))
    } else {
        None
    }
}

fn read_drop_stmt(c: &Vec<char>, i: usize) -> (r: Option<(Stmt, usize)>)
    requires
        i <= c@.len(),
    ensures
        match r {
            Some((v, j)) => i <= j <= c@.len() && drop_stmt(c@.skip(i as int)) == Some(
                (v@, c@.skip(j as int)),
            ),
            None => drop_stmt(c@.skip(i as int)) is None,
        },
{
    let i: usize = read_keyword(c, i, "DROP")?;
    let (made, i): (Stmt, usize) = read_drop_any(c, i)?;
    Some((made, i))
}

/// `USE DATABASE <name>`.
pub open spec fn use_database(s: Seq<char>) -> Found<StmtV> {
    let p1 = keyword(s, "USE"@);
    let p2 = keyword(p1->0, "DATABASE"@);
    let db = name(p2->0);
    if p1 is Some && p2 is Some && db is Some {
        Some((StmtV::UseDatabase { name: (db->0).0 }, (db->0).1))
    } else {
        None
    }
}

fn read_use_database(c: &Vec<char>, i: usize) -> (r: Option<(Stmt, usize)>)
    requires
        i <= c@.len(),
    ensures
        match r {
            Some((v, j)) => i <= j <= c@.len() && use_database(c@.skip(i as int)) == Some(
                (v@, c@.skip(j as int)),
            ),
            None => use_database(c@.skip(i as int)) is None,
        },
{
    let i: usize = read_keyword(c, i, "USE")?;
    let i: usize = read_keyword(c, i, "DATABASE")?;
    let (db, i): (String, usize) = read_name(c, i)?;
    Some((Stmt::UseDatabase { name: db }, i))
}

pub open spec fn user_suffix(s: Seq<char>) -> Found<Seq<char>> {
    let p1 = gap(s);
    let user = name(p1->0);
    if p1 is Some && user is Some {
        Some(((user->0).0, (user->0).1))
    } else {
        None
    }
}

fn read_user_suffix(c: &Vec<char>, i: usize) -> (r: Option<(String, usize)>)
    requires
        i <= c@.len(),
    ensures
        match r {
            Some((v, j)) => i < j <= c@.len() && user_suffix(c@.skip(i as int)) == Some(
                (v@, c@.skip(j as int)),
            ),
            None => user_suffix(c@.skip(i as int)) is None,
        },
{
    let i: usize = read_gap(c, i)?;
    let (user, i): (String, usize) = read_name(c, i)?;
    Some((user, i))
}

/// `GRANTS [<user>]`.
pub open spec fn show_grants(s: Seq<char>) -> Found<StmtV> {
    let p1 = word(s, "GRANTS"@);
    let user = optional(user_suffix(p1->0), p1->0);
    if p1 is Some {
        Some((StmtV::ShowGrants { user: user.0 }, user.1))
    } else {
        None
    }
}

fn read_show_grants(c: &Vec<char>, i: usize) -> (r: Option<(Stmt, usize)>)
    requires
        i <= c@.len(),
    ensures
        match r {
            Some((v, j)) => i <= j <= c@.len() && show_grants(c@.skip(i as int)) == Some(
                (v@, c@.skip(j as int)),
            ),
            None => show_grants(c@.skip(i as int)) is None,
        },
{
    let i: usize = read_word(c, i, "GRANTS")?;
    let (user, i): (Option<String>, usize) = match read_user_suffix(c, i) {
        Some((x, j)) => (Some(x), j),
        None => (None, i),
    };
    Some((Stmt::ShowGrants { user }, i))
}

pub open spec fn show_databases(s: Seq<char>) -> Found<StmtV> {
    let p1 = word(s, "DATABASES"@);
    if p1 is Some {
        Some((StmtV::ShowDatabases, p1->0))
    } else {
        None
    }
}

fn read_show_databases(c: &Vec<char>, i: usize) -> (r: Option<(Stmt, usize)>)
    requires
        i <= c@.len(),
    ensures
        match r {
            Some((v, j)) => i <= j <= c@.len() && show_databases(c@.skip(i as int)) == Some(
                (v@, c@.skip(j as int)),
            ),
            None => show_databases(c@.skip(i as int)) is None,
        },
{
    let i: usize = read_word(c, i, "DATABASES")?;
    Some((Stmt::ShowDatabases, i))
}

pub open spec fn show_lenses(s: Seq<char>) -> Found<StmtV> {
    let p1 = word(s, "LENSES"@);
    if p1 is Some {
        Some((StmtV::ShowLenses, p1->0))
    } else {
        None
    }
}

fn read_show_lenses(c: &Vec<char>, i: usize) -> (r: Option<(Stmt, usize)>)
    requires
        i <= c@.len(),
    ensures
        match r {
            Some((v, j)) => i <= j <= c@.len() && show_lenses(c@.skip(i as int)) == Some(
                (v@, c@.skip(j as int)),
            ),
            None => show_lenses(c@.skip(i as int)) is None,
        },
{
    let i: usize = read_word(c, i, "LENSES")?;
    Some((Stmt::ShowLenses, i))
}

pub open spec fn show_users(s: Seq<char>) -> Found<StmtV> {
    let p1 = word(s, "USERS"@);
    if p1 is Some {
        Some((StmtV::ShowUsers, p1->0))
    } else {
        None
    }
}

fn read_show_users(c: &Vec<char>, i: usize) -> (r: Option<(Stmt, usize)>)
    requires
        i <= c@.len(),
    ensures
        match r {
            Some((v, j)) => i <= j <= c@.len() && show_users(c@.skip(i as int)) == Some(
                (v@, c@.skip(j as int)),
            ),
            None => show_users(c@.skip(i as int)) is None,
        },
{
    let i: usize = read_word(c, i, "USERS")?;
    Some((Stmt::ShowUsers, i))
}

pub open spec fn show_status(s: Seq<char>) -> Found<StmtV> {
    let p1 = word(s, "STATUS"@);
    if p1 is Some {
        Some((StmtV::ShowStatus, p1->0))
    } else {
        None
    }
}

fn read_show_status(c: &Vec<char>, i: usize) -> (r: Option<(Stmt, usize)>)
    requires
        i <= c@.len(),
    ensures
        match r {
            Some((v, j)) => i <= j <= c@.len() && show_status(c@.skip(i as int)) == Some(
                (v@, c@.skip(j as int)),
            ),
            None => show_status(c@.skip(i as int)) is None,
        },
{
    let i: usize = read_word(c, i, "STATUS")?;
    Some((Stmt::ShowStatus, i))
}

pub open spec fn show_functions(s: Seq<char>) -> Found<StmtV> {
    let p1 = word(s, "FUNCTIONS"@);
    if p1 is Some {
        Some((StmtV::ShowFunctions, p1->0))
    } else {
        None
    }
}

fn read_show_functions(c: &Vec<char>, i: usize) -> (r: Option<(Stmt, usize)>)
    requires
        i <= c@.len(),
    ensures
        match r {
            Some((v, j)) => i <= j <= c@.len() && show_functions(c@.skip(i as int)) == Some(
                (v@, c@.skip(j as int)),
            ),
            None => show_functions(c@.skip(i as int)) is None,
        },
{
    let i: usize = read_word(c, i, "FUNCTIONS")?;
    Some((Stmt::ShowFunctions, i))
}

pub open spec fn show_any(s: Seq<char>) -> Found<StmtV> {
    if show_databases(s) is Some {
        show_databases(s)
    } else if show_lenses(s) is Some {
        show_lenses(s)
    } else if show_users(s) is Some {
        show_users(s)
    } else if show_status(s) is Some {
        show_status(s)
    } else if show_functions(s) is Some {
        show_functions(s)
    } else {
        show_grants(s)
    }
}

fn read_show_any(c: &Vec<char>, i: usize) -> (r: Option<(Stmt, usize)>)
    requires
        i <= c@.len(),
    ensures
        match r {
            Some((v, j)) => i <= j <= c@.len() && show_any(c@.skip(i as int)) == Some(
                (v@, c@.skip(j as int)),
            ),
            None => show_any(c@.skip(i as int)) is None,
        },
{
    if let Some(x) = read_show_databases(c, i) {
        return Some(x);
    }
    if let Some(x) = read_show_lenses(c, i) {
        return Some(x);
    }
    if let Some(x) = read_show_users(c, i) {
        return Some(x);
    }
    if let Some(x) = read_show_status(c, i) {
        return Some(x);
    }
    if let Some(x) = read_show_functions(c, i) {
        return Some(x);
    }
    read_show_grants(c, i)
}

/// `SHOW ...`.
pub open spec fn show(s: Seq<char>) -> Found<StmtV> {
    let p1 = keyword(s, "SHOW"@);
    let made = show_any(p1->0);
    if p1 is Some && made is Some {
        Some(((made->0).0, (made->0).1))
    } else {
        None
    }
}

fn read_show(c: &Vec<char>, i: usize) -> (r: Option<(Stmt, usize)>)
    requires
        i <= c@.len(),
    ensures
        match r {
            Some((v, j)) => i <= j <= c@.len() && show(c@.skip(i as int)) == Some(
                (v@, c@.skip(j as int)),
            ),
            None => show(c@.skip(i as int)) is None,
        },
{
    let i: usize = read_keyword(c, i, "SHOW")?;
    let (made, i): (Stmt, usize) = read_show_any(c, i)?;
    Some((made, i))
}

/// A run of permission letters, `*` or `-`.
pub open spec fn perm_letters(s: Seq<char>) -> Found<Perm> {
    let n = if s.len() > 0 && (s[0] == '*' || s[0] == '-') {
        1int
    } else {
        letters_len(s) as int
    };
    if n > 0 && perm_of_text(s.take(n)) is Some {
        Some((perm_of_text(s.take(n))->0, s.skip(n)))
    } else {
        None
    }
}

fn read_perm_letters(c: &Vec<char>, i: usize) -> (r: Option<(Perm, usize)>)
    requires
        i <= c@.len(),
    ensures
        match r {
            Some((v, j)) => i < j <= c@.len() && perm_letters(c@.skip(i as int)) == Some(
                (v, c@.skip(j as int)),
            ),
            None => perm_letters(c@.skip(i as int)) is None,
        },
{
    let j: usize = if i < c.len() && (c[i] == '*' || c[i] == '-') {
        i + 1
    } else {
        letters_end(c, i)
    };
    if j == i {
        return None;
    }
    proof {
        assert(c@.skip(i as int).take(j - i) =~= c@.subrange(i as int, j as int));
        assert(c@.skip(i as int).skip(j - i) =~= c@.skip(j as int));
    }
    match Perm::parse_chars(c, i, j) {
        Ok(p) => Some((p, j)),
        Err(_) => None,
    }
}

/// The target of a grant: a database, or `*` for all.
pub open spec fn db_target(s: Seq<char>) -> Found<Seq<char>> {
    if mark(s, '*') is Some {
        Some(("*"@, s.drop_first()))
    } else {
        name(s)
    }
}

fn read_db_target(c: &Vec<char>, i: usize) -> (r: Option<(String, usize)>)
    requires
        i <= c@.len(),
    ensures
        match r {
            Some((v, j)) => i < j <= c@.len() && db_target(c@.skip(i as int)) == Some(
                (v@, c@.skip(j as int)),
            ),
            None => db_target(c@.skip(i as int)) is None,
        },
{
    if let Some(j) = read_mark(c, i, '*') {
        return Some((owned("*"), j));
    }
    read_name(c, i)
}

/// `GRANT <perms> ON <database> TO <user>`.
pub open spec fn grant(s: Seq<char>) -> Found<StmtV> {
    let p1 = keyword(s, "GRANT"@);
    let perms = perm_letters(p1->0);
    let p3 = infix_word((perms->0).1, "ON"@);
    let database = db_target(p3->0);
    let p5 = infix_word((database->0).1, "TO"@);
    let user = name(p5->0);
    if p1 is Some && perms is Some && p3 is Some && database is Some && p5 is Some && user is Some {
        Some(
            (
                StmtV::Grant {
                    perms: (perms->0).0,
                    database: (database->0).0,
                    user: (user->0).0,
                },
                (user->0).1,
            ),
        )
    } else {
        None
    }
}

fn read_grant(c: &Vec<char>, i: usize) -> (r: Option<(Stmt, usize)>)
    requires
        i <= c@.len(),
    ensures
        match r {
            Some((v, j)) => i <= j <= c@.len() && grant(c@.skip(i as int)) == Some(
                (v@, c@.skip(j as int)),
            ),
            None => grant(c@.skip(i as int)) is None,
        },
{
    let i: usize = read_keyword(c, i, "GRANT")?;
    let (perms, i): (Perm, usize) = read_perm_letters(c, i)?;
    let i: usize = read_infix_word(c, i, "ON")?;
    let (database, i): (String, usize) = read_db_target(c, i)?;
    let i: usize = read_infix_word(c, i, "TO")?;
    let (user, i): (String, usize) = read_name(c, i)?;
    Some((Stmt::Grant { perms, database, user }, i))
}

/// `REVOKE <perms> ON <database> FROM <user>`.
pub open spec fn revoke(s: Seq<char>) -> Found<StmtV> {
    let p1 = keyword(s, "REVOKE"@);
    let perms = perm_letters(p1->0);
    let p3 = infix_word((perms->0).1, "ON"@);
    let database = db_target(p3->0);
    let p5 = infix_word((database->0).1, "FROM"@);
    let user = name(p5->0);
    if p1 is Some && perms is Some && p3 is Some && database is Some && p5 is Some && user is Some {
        Some(
            (
                StmtV::Revoke {
                    perms: (perms->0).0,
                    database: (database->0).0,
                    user: (user->0).0,
                },
                (user->0).1,
            ),
        )
    } else {
        None
    }
}

fn read_revoke(c: &Vec<char>, i: usize) -> (r: Option<(Stmt, usize)>)
    requires
        i <= c@.len(),
    ensures
        match r {
            Some((v, j)) => i <= j <= c@.len() && revoke(c@.skip(i as int)) == Some(
                (v@, c@.skip(j as int)),
            ),
            None => revoke(c@.skip(i as int)) is None,
        },
{
    let i: usize = read_keyword(c, i, "REVOKE")?;
    let (perms, i): (Perm, usize) = read_perm_letters(c, i)?;
    let i: usize = read_infix_word(c, i, "ON")?;
    let (database, i): (String, usize) = read_db_target(c, i)?;
    let i: usize = read_infix_word(c, i, "FROM")?;
    let (user, i): (String, usize) = read_name(c, i)?;
    Some((Stmt::Revoke { perms, database, user }, i))
}

pub open spec fn start_transaction(s: Seq<char>) -> Found<StmtV> {
    let p1 = keyword(s, "START"@);
    let p2 = word(p1->0, "TRANSACTION"@);
    if p1 is Some && p2 is Some {
        Some((StmtV::StartTransaction, p2->0))
    } else {
        None
    }
}

fn read_start_transaction(c: &Vec<char>, i: usize) -> (r: Option<(Stmt, usize)>)
    requires
        i <= c@.len(),
    ensures
        match r {
            Some((v, j)) => i <= j <= c@.len() && start_transaction(c@.skip(i as int)) == Some(
                (v@, c@.skip(j as int)),
            ),
            None => start_transaction(c@.skip(i as int)) is None,
        },
{
    let i: usize = read_keyword(c, i, "START")?;
    let i: usize = read_word(c, i, "TRANSACTION")?;
    Some((Stmt::StartTransaction, i))
}

pub open spec fn commit(s: Seq<char>) -> Found<StmtV> {
    let p1 = word(s, "COMMIT"@);
    if p1 is Some {
        Some((StmtV::Commit, p1->0))
    } else {
        None
    }
}

fn read_commit(c: &Vec<char>, i: usize) -> (r: Option<(Stmt, usize)>)
    requires
        i <= c@.len(),
    ensures
        match r {
            Some((v, j)) => i <= j <= c@.len() && commit(c@.skip(i as int)) == Some(
                (v@, c@.skip(j as int)),
            ),
            None => commit(c@.skip(i as int)) is None,
        },
{
    let i: usize = read_word(c, i, "COMMIT")?;
    Some((Stmt::Commit, i))
}

pub open spec fn rollback(s: Seq<char>) -> Found<StmtV> {
    let p1 = word(s, "ROLLBACK"@);
    if p1 is Some {
        Some((StmtV::Rollback, p1->0))
    } else {
        None
    }
}

fn read_rollback(c: &Vec<char>, i: usize) -> (r: Option<(Stmt, usize)>)
    requires
        i <= c@.len(),
    ensures
        match r {
            Some((v, j)) => i <= j <= c@.len() && rollback(c@.skip(i as int)) == Some(
                (v@, c@.skip(j as int)),
            ),
            None => rollback(c@.skip(i as int)) is None,
        },
{
    let i: usize = read_word(c, i, "ROLLBACK")?;
    Some((Stmt::Rollback, i))
}

pub open spec fn history_window(s: Seq<char>) -> Found<(i64, i64)> {
    let p1 = gap(s);
    let start = integer(p1->0);
    let p3 = gap((start->0).1);
    let end = integer(p3->0);
    if p1 is Some && start is Some && p3 is Some && end is Some {
        Some((((start->0).0, (end->0).0), (end->0).1))
    } else {
        None
    }
}

fn read_history_window(c: &Vec<char>, i: usize) -> (r: Option<((i64, i64), usize)>)
    requires
        i <= c@.len(),
    ensures
        match r {
            Some((v, j)) => i < j <= c@.len() && history_window(c@.skip(i as int)) == Some(
                (v, c@.skip(j as int)),
            ),
            None => history_window(c@.skip(i as int)) is None,
        },
{
    let i: usize = read_gap(c, i)?;
    let (start, i): (i64, usize) = read_integer(c, i)?;
    let i: usize = read_gap(c, i)?;
    let (end, i): (i64, usize) = read_integer(c, i)?;
    Some(((start, end), i))
}

/// `HISTORY LENS <name> [<start> <end>]`.
pub open spec fn history(s: Seq<char>) -> Found<StmtV> {
    let p1 = keyword(s, "HISTORY"@);
    let p2 = keyword(p1->0, "LENS"@);
    let lens = name(p2->0);
    let window = optional(history_window((lens->0).1), (lens->0).1);
    if p1 is Some && p2 is Some && lens is Some {
        Some((StmtV::HistoryLens { name: (lens->0).0, range: window.0 }, window.1))
    } else {
        None
    }
}

fn read_history(c: &Vec<char>, i: usize) -> (r: Option<(Stmt, usize)>)
    requires
        i <= c@.len(),
    ensures
        match r {
            Some((v, j)) => i <= j <= c@.len() && history(c@.skip(i as int)) == Some(
                (v@, c@.skip(j as int)),
            ),
            None => history(c@.skip(i as int)) is None,
        },
{
    let i: usize = read_keyword(c, i, "HISTORY")?;
    let i: usize = read_keyword(c, i, "LENS")?;
    let (lens, i): (String, usize) = read_name(c, i)?;
    let (window, i): (Option<(i64, i64)>, usize) = match read_history_window(c, i) {
        Some((x, j)) => (Some(x), j),
        None => (None, i),
    };
    Some((Stmt::HistoryLens { name: lens, range: window }, i))
}

/// `BACKUP DATABASE <name> TO "<path>"`.
pub open spec fn backup(s: Seq<char>) -> Found<StmtV> {
    let p1 = keyword(s, "BACKUP"@);
    let p2 = keyword(p1->0, "DATABASE"@);
    let db = name(p2->0);
    let p4 = infix_word((db->0).1, "TO"@);
    let path = quoted(p4->0);
    if p1 is Some && p2 is Some && db is Some && p4 is Some && path is Some {
        Some((StmtV::BackupDatabase { name: (db->0).0, path: (path->0).0 }, (path->0).1))
    } else {
        None
    }
}

fn read_backup(c: &Vec<char>, i: usize) -> (r: Option<(Stmt, usize)>)
    requires
        i <= c@.len(),
    ensures
        match r {
            Some((v, j)) => i <= j <= c@.len() && backup(c@.skip(i as int)) == Some(
                (v@, c@.skip(j as int)),
            ),
            None => backup(c@.skip(i as int)) is None,
        },
{
    let i: usize = read_keyword(c, i, "BACKUP")?;
    let i: usize = read_keyword(c, i, "DATABASE")?;
    let (db, i): (String, usize) = read_name(c, i)?;
    let i: usize = read_infix_word(c, i, "TO")?;
    let (path, i): (String, usize) = read_quoted(c, i)?;
    Some((Stmt::BackupDatabase { name: db, path }, i))
}

/// `RESTORE DATABASE <name> FROM "<path>"`.
pub open spec fn restore(s: Seq<char>) -> Found<StmtV> {
    let p1 = keyword(s, "RESTORE"@);
    let p2 = keyword(p1->0, "DATABASE"@);
    let db = name(p2->0);
    let p4 = infix_word((db->0).1, "FROM"@);
    let path = quoted(p4->0);
    if p1 is Some && p2 is Some && db is Some && p4 is Some && path is Some {
        Some((StmtV::RestoreDatabase { name: (db->0).0, path: (path->0).0 }, (path->0).1))
    } else {
        None
    }
}

fn read_restore(c: &Vec<char>, i: usize) -> (r: Option<(Stmt, usize)>)
    requires
        i <= c@.len(),
    ensures
        match r {
            Some((v, j)) => i <= j <= c@.len() && restore(c@.skip(i as int)) == Some(
                (v@, c@.skip(j as int)),
            ),
            None => restore(c@.skip(i as int)) is None,
        },
{
    let i: usize = read_keyword(c, i, "RESTORE")?;
    let i: usize = read_keyword(c, i, "DATABASE")?;
    let (db, i): (String, usize) = read_name(c, i)?;
    let i: usize = read_infix_word(c, i, "FROM")?;
    let (path, i): (String, usize) = read_quoted(c, i)?;
    Some((Stmt::RestoreDatabase { name: db, path }, i))
}

/// The arguments of a call: literals apart by commas, none or more.
pub open spec fn call_args(s: Seq<char>) -> (Seq<LiteralV>, Seq<char>) {
    match literal(s) {
        Some((first, s1)) => (seq![first] + comma_literals(s1).0, comma_literals(s1).1),
        None => (Seq::empty(), s),
    }
}

fn read_call_args(c: &Vec<char>, i: usize) -> (r: (Vec<Literal>, usize))
    requires
        i <= c@.len(),
    ensures
        i <= r.1 <= c@.len(),
        call_args(c@.skip(i as int)).0 =~= literals_view(r.0@),
        call_args(c@.skip(i as int)).1 == c@.skip(r.1 as int),
{
    match read_literal(c, i) {
        Some((first, i)) => {
            let (rest, i): (Vec<Literal>, usize) = read_comma_literals(c, i);
            let args = prepend(first, rest);
            assert(literals_view(args@) =~= seq![first@] + literals_view(rest@));
            (args, i)
        },
        None => (Vec::new(), i),
    }
}

/// `CALL FUNCTION <name>(<literal>, ...)`.
pub open spec fn call_function(s: Seq<char>) -> Found<StmtV> {
    let p1 = keyword(s, "CALL"@);
    let p2 = keyword(p1->0, "FUNCTION"@);
    let func = name(p2->0);
    let p4 = spaced_mark((func->0).1, '(');
    let args = call_args(p4->0);
    let p7 = mark(blanks(args.1), ')');
    if p1 is Some && p2 is Some && func is Some && p4 is Some && p7 is Some {
        Some((StmtV::CallFunction { name: (func->0).0, args: args.0 }, p7->0))
    } else {
        None
    }
}

fn read_call_function(c: &Vec<char>, i: usize) -> (r: Option<(Stmt, usize)>)
    requires
        i <= c@.len(),
    ensures
        match r {
            Some((v, j)) => i <= j <= c@.len() && call_function(c@.skip(i as int)) == Some(
                (v@, c@.skip(j as int)),
            ),
            None => call_function(c@.skip(i as int)) is None,
        },
{
    let i: usize = read_keyword(c, i, "CALL")?;
    let i: usize = read_keyword(c, i, "FUNCTION")?;
    let (func, i): (String, usize) = read_name(c, i)?;
    let i: usize = read_spaced_mark(c, i, '(')?;
    let (args, i): (Vec<Literal>, usize) = read_call_args(c, i);
    let i: usize = skip_blanks(c, i);
    let i: usize = read_mark(c, i, ')')?;
    Some((Stmt::CallFunction { name: func, args }, i))
}

/// `SET TTL LENS <name> <seconds>`.
pub open spec fn set_ttl(s: Seq<char>) -> Found<StmtV> {
    let p1 = keyword(s, "SET"@);
    let p2 = keyword(p1->0, "TTL"@);
    let p3 = keyword(p2->0, "LENS"@);
    let lens = name(p3->0);
    let p5 = gap((lens->0).1);
    let secs = integer(p5->0);
    if p1 is Some && p2 is Some && p3 is Some && lens is Some && p5 is Some && secs is Some {
        Some((StmtV::SetTtl { name: (lens->0).0, secs: (secs->0).0 }, (secs->0).1))
    } else {
        None
    }
}

fn read_set_ttl(c: &Vec<char>, i: usize) -> (r: Option<(Stmt, usize)>)
    requires
        i <= c@.len(),
    ensures
        match r {
            Some((v, j)) => i <= j <= c@.len() && set_ttl(c@.skip(i as int)) == Some(
                (v@, c@.skip(j as int)),
            ),
            None => set_ttl(c@.skip(i as int)) is None,
        },
{
    let i: usize = read_keyword(c, i, "SET")?;
    let i: usize = read_keyword(c, i, "TTL")?;
    let i: usize = read_keyword(c, i, "LENS")?;
    let (lens, i): (String, usize) = read_name(c, i)?;
    let i: usize = read_gap(c, i)?;
    let (secs, i): (i64, usize) = read_integer(c, i)?;
    Some((Stmt::SetTtl { name: lens, secs }, i))
}

/// `UNSET TTL LENS <name>`.
pub open spec fn unset_ttl(s: Seq<char>) -> Found<StmtV> {
    let p1 = keyword(s, "UNSET"@);
    let p2 = keyword(p1->0, "TTL"@);
    let p3 = keyword(p2->0, "LENS"@);
    let lens = name(p3->0);
    if p1 is Some && p2 is Some && p3 is Some && lens is Some {
        Some((StmtV::UnsetTtl { name: (lens->0).0 }, (lens->0).1))
    } else {
        None
    }
}

fn read_unset_ttl(c: &Vec<char>, i: usize) -> (r: Option<(Stmt, usize)>)
    requires
        i <= c@.len(),
    ensures
        match r {
            Some((v, j)) => i <= j <= c@.len() && unset_ttl(c@.skip(i as int)) == Some(
                (v@, c@.skip(j as int)),
            ),
            None => unset_ttl(c@.skip(i as int)) is None,
        },
{
    let i: usize = read_keyword(c, i, "UNSET")?;
    let i: usize = read_keyword(c, i, "TTL")?;
    let i: usize = read_keyword(c, i, "LENS")?;
    let (lens, i): (String, usize) = read_name(c, i)?;
    Some((Stmt::UnsetTtl { name: lens }, i))
}

/// One statement.
pub open spec fn any_statement(s: Seq<char>) -> Found<StmtV> {
    if create(s) is Some {
        create(s)
    } else if batch_append(s) is Some {
        batch_append(s)
    } else if append(s) is Some {
        append(s)
    } else if copy(s) is Some {
        copy(s)
    } else if xderive(s) is Some {
        xderive(s)
    } else if derive_stmt(s) is Some {
        derive_stmt(s)
    } else if at(s) is Some {
        at(s)
    } else if range(s) is Some {
        range(s)
    } else if reduce(s) is Some {
        reduce(s)
    } else if drop_stmt(s) is Some {
        drop_stmt(s)
    } else if use_database(s) is Some {
        use_database(s)
    } else if show(s) is Some {
        show(s)
    } else if grant(s) is Some {
        grant(s)
    } else if revoke(s) is Some {
        revoke(s)
    } else if start_transaction(s) is Some {
        start_transaction(s)
    } else if commit(s) is Some {
        commit(s)
    } else if rollback(s) is Some {
        rollback(s)
    } else if history(s) is Some {
        history(s)
    } else if backup(s) is Some {
        backup(s)
    } else if restore(s) is Some {
        restore(s)
    } else if call_function(s) is Some {
        call_function(s)
    } else if set_ttl(s) is Some {
        set_ttl(s)
    } else {
        unset_ttl(s)
    }
}

fn read_any_statement(c: &Vec<char>, i: usize) -> (r: Option<(Stmt, usize)>)
    requires
        i <= c@.len(),
    ensures
        match r {
            Some((v, j)) => i <= j <= c@.len() && any_statement(c@.skip(i as int)) == Some(
                (v@, c@.skip(j as int)),
            ),
            None => any_statement(c@.skip(i as int)) is None,
        },
{
    if let Some(x) = read_create(c, i) {
        return Some(x);
    }
    if let Some(x) = read_batch_append(c, i) {
        return Some(x);
    }
    if let Some(x) = read_append(c, i) {
        return Some(x);
    }
    if let Some(x) = read_copy(c, i) {
        return Some(x);
    }
    if let Some(x) = read_xderive(c, i) {
        return Some(x);
    }
    if let Some(x) = read_derive(c, i) {
        return Some(x);
    }
    if let Some(x) = read_at(c, i) {
        return Some(x);
    }
    if let Some(x) = read_range(c, i) {
        return Some(x);
    }
    if let Some(x) = read_reduce(c, i) {
        return Some(x);
    }
    if let Some(x) = read_drop_stmt(c, i) {
        return Some(x);
    }
    if let Some(x) = read_use_database(c, i) {
        return Some(x);
    }
    if let Some(x) = read_show(c, i) {
        return Some(x);
    }
    if let Some(x) = read_grant(c, i) {
        return Some(x);
    }
    if let Some(x) = read_revoke(c, i) {
        return Some(x);
    }
    if let Some(x) = read_start_transaction(c, i) {
        return Some(x);
    }
    if let Some(x) = read_commit(c, i) {
        return Some(x);
    }
    if let Some(x) = read_rollback(c, i) {
        return Some(x);
    }
    if let Some(x) = read_history(c, i) {
        return Some(x);
    }
    if let Some(x) = read_backup(c, i) {
        return Some(x);
    }
    if let Some(x) = read_restore(c, i) {
        return Some(x);
    }
    if let Some(x) = read_call_function(c, i) {
        return Some(x);
    }
    if let Some(x) = read_set_ttl(c, i) {
        return Some(x);
    }
    read_unset_ttl(c, i)
}

/// One statement, with blanks before and behind it and nothing else.
pub open spec fn statement(s: Seq<char>) -> Found<StmtV> {
    match any_statement(blanks(s)) {
        Some((stmt, rest)) => if blanks(rest).len() == 0 {
            Some((stmt, blanks(rest)))
        } else {
            None
        },
        None => None,
    }
}

/// The text that is left where reading a text as one statement stops: behind the statement,
/// or where there is none, where reading gets stuck.
pub open spec fn stopped(s: Seq<char>) -> Seq<char> {
    match any_statement(blanks(s)) {
        Some((_, rest)) => blanks(rest),
        None => stuck(blanks(s)),
    }
}

/// The text that is left where reading `UNSET TTL LENS <name>`, the last choice, gets
/// stuck.
pub open spec fn stuck(s: Seq<char>) -> Seq<char> {
    let p1 = word(s, "UNSET"@);
    let p2 = gap(p1->0);
    let p3 = word(p2->0, "TTL"@);
    let p4 = gap(p3->0);
    let p5 = word(p4->0, "LENS"@);
    let p6 = gap(p5->0);
    if p1 is None {
        s
    } else if p2 is None {
        p1->0
    } else if p3 is None {
        p2->0
    } else if p4 is None {
        p3->0
    } else if p5 is None {
        p4->0
    } else if p6 is None {
        p5->0
    } else {
        p6->0
    }
}

/// Where the parser got stuck.
#[derive(Debug, Clone, Copy, PartialEq, Eq, Structural)]
pub struct ParseError {
    /// How many characters had been read.
    pub at: usize,
}

fn stuck_at(c: &Vec<char>, i: usize) -> (r: usize)
    requires
        i <= c@.len(),
    ensures
        i <= r <= c@.len(),
        c@.skip(r as int) == stuck(c@.skip(i as int)),
{
    let i: usize = match read_word(c, i, "UNSET") {
        Some(j) => j,
        None => {
            return i;
        },
    };
    let i: usize = match read_gap(c, i) {
        Some(j) => j,
        None => {
            return i;
        },
    };
    let i: usize = match read_word(c, i, "TTL") {
        Some(j) => j,
        None => {
            return i;
        },
    };
    let i: usize = match read_gap(c, i) {
        Some(j) => j,
        None => {
            return i;
        },
    };
    let i: usize = match read_word(c, i, "LENS") {
        Some(j) => j,
        None => {
            return i;
        },
    };
    match read_gap(c, i) {
        Some(j) => j,
        None => i,
    }
}

/// Parses a text that is one statement, with blanks around it or not. Nothing is left of the
/// text.
pub fn parse(input: &str) -> (r: Result<(String, Stmt), ParseError>)
    ensures
        match r {
            Ok((rest, stmt)) => statement(input@) == Some((stmt@, rest@)) && rest@.len() == 0,
            Err(e) => {
                &&& statement(input@) is None
                &&& e.at <= input@.len()
                &&& input@.skip(e.at as int) == stopped(input@)
            },
        },
{
    let c = to_chars(input);
    assert(c@.skip(0) =~= input@);
    let i: usize = skip_blanks(&c, 0);
    match read_any_statement(&c, i) {
        Some((stmt, j)) => {
            let j: usize = skip_blanks(&c, j);
            if j < c.len() {
                return Err(ParseError { at: j });
            }
            let rest = from_chars(&c, j, c.len());
            assert(c@.subrange(j as int, c@.len() as int) =~= c@.skip(j as int));
            Ok((rest, stmt))
        },
        None => Err(ParseError { at: stuck_at(&c, i) }),
    }
}

/// Parses a text that is one literal, with white space around it or not.
pub fn parse_literal(s: &str) -> (r: Option<Literal>)
    ensures
        match r {
            Some(l) => literal(trim(s@)) is Some && (literal(trim(s@))->0).0 == l@ && all_white(
                (literal(trim(s@))->0).1,
            ),
            None => literal(trim(s@)) is None || !all_white((literal(trim(s@))->0).1),
        },
{
    let c = to_chars(s);
    assert(c@.subrange(0, c@.len() as int) =~= s@);
    parse_literal_in(&c, 0, c.len())
}

/// Parses `c[from..to]` as one literal, with white space around it or not.
pub fn parse_literal_in(c: &Vec<char>, from: usize, to: usize) -> (r: Option<Literal>)
    requires
        from <= to <= c@.len(),
    ensures
        ({
            let s = c@.subrange(from as int, to as int);
            match r {
                Some(l) => literal(trim(s)) is Some && (literal(trim(s))->0).0 == l@ && all_white(
                    (literal(trim(s))->0).1,
                ),
                None => literal(trim(s)) is None || !all_white((literal(trim(s))->0).1),
            }
        }),
{
    let i: usize = start_trimmed(c, from, to);
    let j: usize = end_trimmed(c, i, to);
    let t = slice_chars(c, i, j);
    assert(t@.skip(0) =~= t@);
    let (l, k): (Literal, usize) = read_literal(&t, 0)?;
    assert(t@.subrange(k as int, t@.len() as int) =~= t@.skip(k as int));
    if is_all_white(&t, k, t.len()) {
        Some(l)
    } else {
        None
    }
}

/// At most the first 24 characters.
pub open spec fn snippet(s: Seq<char>) -> Seq<char> {
    if s.len() <= 24 {
        s
    } else {
        s.take(24)
    }
}

/// The message for a query on which the parser got stuck after `at` characters.
pub open spec fn parse_error_text(query: Seq<char>, at: int) -> Seq<char> {
    let near = trim_start(query.skip(at));
    let head = "parse error at column "@ + decimal((at + 1) as nat);
    if near.len() == 0 {
        head + ": unexpected end of input"@
    } else {
        head + ": near `"@ + snippet(near) + "`"@
    }
}

/// A message of one line that points at the column where the parser got stuck.
pub fn format_parse_error(query: &str, err: ParseError) -> (r: String)
    requires
        err.at <= query@.len(),
    ensures
        r@ == parse_error_text(query@, err.at as int),
{
    let c = to_chars(query);
    let n: usize = c.len();
    let i: usize = start_trimmed(&c, err.at, n);
    proof {
        assert(c@.subrange(err.at as int, n as int) =~= query@.skip(err.at as int));
    }
    let mut out = owned("parse error at column ");
    push_wide_decimal(&mut out, err.at as u128 + 1);
    if i == n {
        out.append(": unexpected end of input");
    } else {
        let end: usize = if n - i <= 24 {
            n
        } else {
            i + 24
        };
        out.append(": near `");
        let near = from_chars(&c, i, end);
        out.append(near.as_str());
        out.append("`");
        proof {
            let near = trim_start(query@.skip(err.at as int));
            assert(near == c@.subrange(i as int, n as int));
            assert(snippet(near) =~= c@.subrange(i as int, end as int));
        }
    }
    out
}

} // verus!
