//! What the schema log rests on: the text of a statement reads back as the statement.

use crate::ast::{AggFunc, BinOp, ExprV, LiteralV};
use crate::lex::{
    blanks, decimal_len, decimal_number, digits_len, gap, infix_word, integer, is_blank, is_letter,
    is_name_char, keyword, lemma_blanks, lemma_lens, mark, name, name_len, quoted, sign_len,
    spaced_mark, unquoted_len, word,
};
use crate::parser::{
    agg_call, agg_word, binary, bracketed, chain, compared, level, literal, operator, primary,
    signed,
};
use crate::render::{agg_text, expr_text, literal_text, op_text};
use crate::text::{all_digits, decimal, digits_value, int_text, is_digit, lemma_decimal_value};
use vstd::prelude::*;
use vstd::string::*;

verus! {

/// A text that `name` reads whole.
pub open spec fn is_name(s: Seq<char>) -> bool {
    &&& s.len() > 0
    &&& is_letter(s[0]) || s[0] == '_'
    &&& forall|i: int| 0 <= i < s.len() ==> is_name_char(#[trigger] s[i])
}

/// The text does not go on with a character of a name.
pub open spec fn ends_name(s: Seq<char>) -> bool {
    s.len() == 0 || !is_name_char(s[0])
}

/// The text does not go on with a digit.
pub open spec fn ends_number(s: Seq<char>) -> bool {
    s.len() == 0 || !is_digit(s[0])
}

/// The text starts, and not with a blank.
pub open spec fn starts(s: Seq<char>) -> bool {
    s.len() > 0 && !is_blank(s[0])
}

pub proof fn lemma_word_read(w: Seq<char>, rest: Seq<char>)
    ensures
        word(w + rest, w) == Some(rest),
{
    assert((w + rest).take(w.len() as int) =~= w);
    assert((w + rest).skip(w.len() as int) =~= rest);
}

/// A text that differs from a word at some place does not start with the word.
pub proof fn lemma_word_differs(s: Seq<char>, w: Seq<char>, k: int)
    requires
        0 <= k < w.len(),
        k < s.len() ==> s[k] != w[k],
    ensures
        word(s, w) is None,
        keyword(s, w) is None,
{
    if s.len() >= w.len() {
        assert(s.take(w.len() as int)[k] == s[k]);
    }
}

pub proof fn lemma_gap_read(rest: Seq<char>)
    requires
        starts(rest),
    ensures
        gap(" "@ + rest) == Some(rest),
        blanks(" "@ + rest) == rest,
        blanks(rest) == rest,
{
    reveal_strlit(" ");
    reveal_with_fuel(blanks, 2);
    assert((" "@ + rest).drop_first() =~= rest);
}

pub proof fn lemma_keyword_read(w: Seq<char>, rest: Seq<char>)
    requires
        starts(rest),
    ensures
        keyword(w + " "@ + rest, w) == Some(rest),
{
    assert(w + " "@ + rest =~= w + (" "@ + rest));
    lemma_word_read(w, " "@ + rest);
    lemma_gap_read(rest);
}

pub proof fn lemma_infix_read(w: Seq<char>, rest: Seq<char>)
    requires
        starts(w),
        starts(rest),
    ensures
        infix_word(" "@ + w + " "@ + rest, w) == Some(rest),
{
    assert(" "@ + w + " "@ + rest =~= " "@ + (w + " "@ + rest));
    assert((w + " "@ + rest)[0] == w[0]);
    lemma_gap_read(w + " "@ + rest);
    lemma_keyword_read(w, rest);
}

proof fn lemma_name_len(s: Seq<char>, rest: Seq<char>)
    requires
        forall|i: int| 0 <= i < s.len() ==> is_name_char(#[trigger] s[i]),
        ends_name(rest),
    ensures
        name_len(s + rest) == s.len(),
    decreases s.len(),
{
    if s.len() == 0 {
        assert(s + rest =~= rest);
    } else {
        assert((s + rest).drop_first() =~= s.drop_first() + rest);
        assert((s + rest)[0] == s[0]);
        lemma_name_len(s.drop_first(), rest);
    }
}

pub proof fn lemma_name_read(s: Seq<char>, rest: Seq<char>)
    requires
        is_name(s),
        ends_name(rest),
    ensures
        name(s + rest) == Some((s, rest)),
        starts(s + rest),
{
    lemma_name_len(s, rest);
    assert((s + rest)[0] == s[0]);
    assert((s + rest).take(s.len() as int) =~= s);
    assert((s + rest).skip(s.len() as int) =~= rest);
}

proof fn lemma_name_chars(s: Seq<char>)
    ensures
        name_len(s) <= s.len(),
        forall|i: int| 0 <= i < name_len(s) ==> is_name_char(#[trigger] s[i]),
    decreases s.len(),
{
    if s.len() > 0 && is_name_char(s[0]) {
        lemma_name_chars(s.drop_first());
        assert forall|i: int| 0 <= i < name_len(s) implies is_name_char(#[trigger] s[i]) by {
            if i > 0 {
                assert(s[i] == s.drop_first()[i - 1]);
            }
        }
    }
}

/// What `name` reads is a name.
pub proof fn lemma_name_made(s: Seq<char>)
    requires
        name(s) is Some,
    ensures
        is_name((name(s)->0).0),
{
    lemma_name_chars(s);
    let n = name_len(s) as int;
    assert(is_name_char(s[0]));
    assert(n > 0);
    assert(s.take(n)[0] == s[0]);
}

proof fn lemma_digits_len(s: Seq<char>, rest: Seq<char>)
    requires
        all_digits(s),
        ends_number(rest),
    ensures
        digits_len(s + rest) == s.len(),
    decreases s.len(),
{
    if s.len() == 0 {
        assert(s + rest =~= rest);
    } else {
        assert((s + rest).drop_first() =~= s.drop_first() + rest);
        assert((s + rest)[0] == s[0]);
        assert forall|i: int| 0 <= i < s.drop_first().len() implies is_digit(
            #[trigger] s.drop_first()[i],
        ) by {
            assert(s.drop_first()[i] == s[i + 1]);
        }
        lemma_digits_len(s.drop_first(), rest);
    }
}

/// What `int_text` writes, `integer` reads.
pub proof fn lemma_integer_read(i: i64, rest: Seq<char>)
    requires
        ends_number(rest),
    ensures
        integer(int_text(i as int) + rest) == Some((i, rest)),
        starts(int_text(i as int) + rest),
        int_text(i as int).len() > 0,
        i >= 0 ==> is_digit(int_text(i as int)[0]),
        i < 0 ==> int_text(i as int)[0] == '-',
{
    let m: nat = if i < 0 {
        (-i) as nat
    } else {
        i as nat
    };
    lemma_decimal_value(m);
    let d = decimal(m);
    let s = int_text(i as int) + rest;
    let k = sign_len(s);
    lemma_digits_len(d, rest);
    assert(s.skip(k) =~= d + rest);
    assert(s.subrange(k, k + d.len()) =~= d);
    assert(s.skip(k + d.len()) =~= rest);
}

proof fn lemma_unquoted_len(s: Seq<char>, rest: Seq<char>)
    requires
        forall|i: int| 0 <= i < s.len() ==> #[trigger] s[i] != '"',
        rest.len() > 0,
        rest[0] == '"',
    ensures
        unquoted_len(s + rest) == s.len(),
    decreases s.len(),
{
    if s.len() == 0 {
        assert(s + rest =~= rest);
    } else {
        assert((s + rest).drop_first() =~= s.drop_first() + rest);
        assert((s + rest)[0] == s[0]);
        lemma_unquoted_len(s.drop_first(), rest);
    }
}

/// A text without a double quote.
pub open spec fn is_quotable(s: Seq<char>) -> bool {
    forall|i: int| 0 <= i < s.len() ==> #[trigger] s[i] != '"'
}

pub proof fn lemma_quoted_read(s: Seq<char>, rest: Seq<char>)
    requires
        is_quotable(s),
    ensures
        quoted("\""@ + s + "\""@ + rest) == Some((s, rest)),
{
    reveal_strlit("\"");
    let t = "\""@ + s + "\""@ + rest;
    assert(t.skip(1) =~= s + ("\""@ + rest));
    lemma_unquoted_len(s, "\""@ + rest);
    let n = s.len() as int;
    assert(t.subrange(1, 1 + n) =~= s);
    assert(t.skip(n + 2) =~= rest);
}

proof fn lemma_unquoted_chars(s: Seq<char>)
    ensures
        unquoted_len(s) <= s.len(),
        forall|i: int| 0 <= i < unquoted_len(s) ==> #[trigger] s[i] != '"',
    decreases s.len(),
{
    if s.len() > 0 && s[0] != '"' {
        lemma_unquoted_chars(s.drop_first());
        assert forall|i: int| 0 <= i < unquoted_len(s) implies #[trigger] s[i] != '"' by {
            if i > 0 {
                assert(s[i] == s.drop_first()[i - 1]);
            }
        }
    }
}

/// What `quoted` reads can be quoted.
pub proof fn lemma_quoted_made(s: Seq<char>)
    requires
        quoted(s) is Some,
    ensures
        is_quotable((quoted(s)->0).0),
{
    lemma_unquoted_chars(s.skip(1));
    let v = (quoted(s)->0).0;
    assert forall|i: int| 0 <= i < v.len() implies #[trigger] v[i] != '"' by {
        assert(v[i] == s.skip(1)[i]);
    }
}


/// A decimal number with a point and without a sign.
pub open spec fn is_unsigned_decimal(s: Seq<char>) -> bool {
    s.len() > 0 && is_digit(s[0]) && decimal_len(s) == s.len()
}

/// A literal that stands in an expression. A minus sign in front of a number is an
/// operator there, but for the one integer whose opposite is out of range.
pub open spec fn is_plain_literal(l: LiteralV) -> bool {
    match l {
        LiteralV::Null => true,
        LiteralV::Bool(_) => true,
        LiteralV::Str(s) => is_quotable(s),
        LiteralV::Float(s) => is_unsigned_decimal(s),
        LiteralV::Int(i) => i >= 0 || i == i64::MIN,
    }
}

/// A name that does not start like a literal.
pub open spec fn is_lens_word(s: Seq<char>) -> bool {
    &&& is_name(s)
    &&& word(s, "null"@) is None
    &&& word(s, "true"@) is None
    &&& word(s, "false"@) is None
}

/// An expression as the parser makes it.
pub open spec fn is_plain(e: ExprV) -> bool
    decreases e,
{
    match e {
        ExprV::Lit(l) => is_plain_literal(l),
        ExprV::Ident(n) => is_lens_word(n),
        ExprV::Unary { op, expr } => is_plain(*expr),
        ExprV::Binary { op, lhs, rhs } => is_plain(*lhs) && is_plain(*rhs),
        ExprV::Agg { func, lens, rel_start, rel_end } => is_name(lens),
    }
}

/// The text ends an operand: it is empty, or a blank or a closing bracket with no opening
/// bracket next.
spec fn closes(s: Seq<char>) -> bool {
    &&& s.len() == 0 || s[0] == ' ' || s[0] == ')'
    &&& blanks(s).len() > 0 ==> blanks(s)[0] != '('
}

/// The first character of an operand.
spec fn opens(c: char) -> bool {
    is_name_char(c) || c == '"' || c == '(' || c == '-' || c == '!'
}

proof fn lemma_decimal_prefix(s: Seq<char>, rest: Seq<char>)
    requires
        is_unsigned_decimal(s),
        ends_number(rest),
    ensures
        decimal_number(s + rest) == Some((s, rest)),
{
    let t = s + rest;
    lemma_lens(s);
    let n = digits_len(s) as int;
    assert(s.skip(0) =~= s);
    assert(t.skip(0) =~= t);
    let head = s.take(n);
    let f = digits_len(s.skip(n + 1)) as int;
    lemma_lens(s.skip(n + 1));
    let tail = s.skip(n + 1);
    assert(tail.take(f) =~= tail);
    assert(t =~= head + (s.skip(n) + rest));
    assert((s.skip(n) + rest)[0] == '.');
    lemma_digits_len(head, s.skip(n) + rest);
    assert(t.skip(n + 1) =~= tail + rest);
    lemma_digits_len(tail, rest);
    assert(t[0] == s[0]);
    assert(decimal_len(t) == s.len());
    assert(t.take(s.len() as int) =~= s);
    assert(t.skip(s.len() as int) =~= rest);
}

/// Behind a whole number stands no point.
proof fn lemma_no_decimal(i: i64, rest: Seq<char>)
    requires
        ends_number(rest),
        rest.len() == 0 || rest[0] != '.',
    ensures
        decimal_number(int_text(i as int) + rest) is None,
{
    let m: nat = if i < 0 {
        (-i) as nat
    } else {
        i as nat
    };
    lemma_decimal_value(m);
    let d = decimal(m);
    let s = int_text(i as int) + rest;
    let k = sign_len(s);
    lemma_digits_len(d, rest);
    assert(s.skip(k) =~= d + rest);
    if s.len() > k + d.len() {
        assert(s[k + d.len()] == rest[0]);
    }
}

/// What stands first in a word of the grammar tells it from a text with another first
/// character.
proof fn lemma_not_word_literal(s: Seq<char>)
    requires
        s.len() > 0,
        s[0] != 'n' && s[0] != 't' && s[0] != 'f',
    ensures
        word(s, "null"@) is None,
        word(s, "true"@) is None,
        word(s, "false"@) is None,
{
    reveal_strlit("null");
    reveal_strlit("true");
    reveal_strlit("false");
    lemma_word_differs(s, "null"@, 0);
    lemma_word_differs(s, "true"@, 0);
    lemma_word_differs(s, "false"@, 0);
}

proof fn lemma_literal_read(l: LiteralV, rest: Seq<char>)
    requires
        is_plain_literal(l),
        closes(rest),
    ensures
        literal(literal_text(l) + rest) == Some((l, rest)),
        literal_text(l).len() > 0,
        opens(literal_text(l)[0]),
        literal_text(l)[0] != '(',
        literal_text(l)[0] != '!',
        literal_text(l)[0] == '-' ==> l == LiteralV::Int(i64::MIN),
{
    reveal_strlit("null");
    reveal_strlit("true");
    reveal_strlit("false");
    reveal_strlit("\"");
    let t = literal_text(l) + rest;
    match l {
        LiteralV::Null => {
            lemma_word_read("null"@, rest);
        },
        LiteralV::Bool(b) => {
            if b {
                lemma_word_differs(t, "null"@, 0);
                lemma_word_read("true"@, rest);
            } else {
                lemma_word_differs(t, "null"@, 0);
                lemma_word_differs(t, "true"@, 0);
                lemma_word_read("false"@, rest);
            }
        },
        LiteralV::Str(s) => {
            lemma_not_word_literal(t);
            lemma_quoted_read(s, rest);
        },
        LiteralV::Float(s) => {
            assert(t[0] == s[0]);
            lemma_not_word_literal(t);
            lemma_decimal_prefix(s, rest);
        },
        LiteralV::Int(i) => {
            lemma_integer_read(i, rest);
            lemma_no_decimal(i, rest);
            assert(t[0] == int_text(i as int)[0]);
            lemma_not_word_literal(t);
        },
    }
}

/// Where a name does not start with a word of letters, it does not do so with more text
/// behind it either.
proof fn lemma_name_not_word(n: Seq<char>, rest: Seq<char>, w: Seq<char>)
    requires
        is_name(n),
        ends_name(rest),
        forall|i: int| 0 <= i < w.len() ==> is_letter(#[trigger] w[i]),
        w.len() > 0,
        word(n, w) is None,
    ensures
        word(n + rest, w) is None,
{
    let t = n + rest;
    if word(t, w) is Some {
        let k = w.len() as int;
        if k <= n.len() {
            assert(t.take(k) =~= n.take(k));
        } else {
            assert(t.take(k)[n.len() as int] == rest[0]);
            assert(is_letter(w[n.len() as int]));
        }
    }
}

/// A name in front of what ends an operand is no call of an aggregate.
proof fn lemma_no_call(n: Seq<char>, rest: Seq<char>, w: Seq<char>)
    requires
        is_name(n),
        closes(rest),
        forall|i: int| 0 <= i < w.len() ==> is_letter(#[trigger] w[i]),
        w.len() > 0,
        word(n + rest, w) is Some,
    ensures
        spaced_mark(word(n + rest, w)->0, '(') is None,
{
    let t = n + rest;
    let k = w.len() as int;
    let left = t.skip(k);
    if k < n.len() {
        assert(left[0] == n[k]);
        assert(is_name_char(n[k]));
    } else if k == n.len() {
        assert(left =~= rest);
    } else {
        assert(t.take(k)[n.len() as int] == rest[0]);
        assert(is_letter(w[n.len() as int]));
    }
}

proof fn lemma_ident_read(n: Seq<char>, rest: Seq<char>)
    requires
        is_lens_word(n),
        closes(rest),
    ensures
        literal(n + rest) is None,
        agg_call(n + rest) is None,
        name(n + rest) == Some((n, rest)),
        opens((n + rest)[0]),
        (n + rest)[0] != '(',
        (n + rest)[0] != '-',
        (n + rest)[0] != '!',
{
    reveal_strlit("null");
    reveal_strlit("true");
    reveal_strlit("false");
    reveal_strlit("min");
    reveal_strlit("max");
    reveal_strlit("avg");
    reveal_strlit("sum");
    reveal_strlit("count");
    let t = n + rest;
    assert(t[0] == n[0]);
    lemma_name_read(n, rest);
    lemma_name_not_word(n, rest, "null"@);
    lemma_name_not_word(n, rest, "true"@);
    lemma_name_not_word(n, rest, "false"@);
    assert(t.skip(0) =~= t);
    assert(digits_len(t) == 0);
    if word(t, "min"@) is Some {
        lemma_no_call(n, rest, "min"@);
    } else if word(t, "max"@) is Some {
        lemma_no_call(n, rest, "max"@);
    } else if word(t, "avg"@) is Some {
        lemma_no_call(n, rest, "avg"@);
    } else if word(t, "sum"@) is Some {
        lemma_no_call(n, rest, "sum"@);
    } else if word(t, "count"@) is Some {
        lemma_no_call(n, rest, "count"@);
    }
}


proof fn lemma_agg_word_read(func: AggFunc, rest: Seq<char>)
    ensures
        agg_word(agg_text(func) + rest) == Some((func, rest)),
        agg_text(func).len() > 0,
        is_letter(agg_text(func)[0]),
        agg_text(func)[0] != 'n',
        agg_text(func)[0] != 't',
        agg_text(func)[0] != 'f',
{
    reveal_strlit("min");
    reveal_strlit("max");
    reveal_strlit("avg");
    reveal_strlit("sum");
    reveal_strlit("count");
    let t = agg_text(func) + rest;
    match func {
        AggFunc::Min => lemma_word_read("min"@, rest),
        AggFunc::Max => {
            lemma_word_differs(t, "min"@, 1);
            lemma_word_read("max"@, rest);
        },
        AggFunc::Avg => {
            lemma_word_differs(t, "min"@, 0);
            lemma_word_differs(t, "max"@, 0);
            lemma_word_read("avg"@, rest);
        },
        AggFunc::Sum => {
            lemma_word_differs(t, "min"@, 0);
            lemma_word_differs(t, "max"@, 0);
            lemma_word_differs(t, "avg"@, 0);
            lemma_word_read("sum"@, rest);
        },
        AggFunc::Count => {
            lemma_word_differs(t, "min"@, 0);
            lemma_word_differs(t, "max"@, 0);
            lemma_word_differs(t, "avg"@, 0);
            lemma_word_differs(t, "sum"@, 0);
            lemma_word_read("count"@, rest);
        },
    }
}

/// A mark with a blank behind it.
pub proof fn lemma_mark_gap(m: Seq<char>, c: char, rest: Seq<char>)
    requires
        m == seq![c, ' '],
        !is_blank(c),
        starts(rest),
    ensures
        spaced_mark(m + rest, c) == Some(rest),
{
    assert((m + rest).drop_first() =~= seq![' '] + rest);
    reveal_with_fuel(blanks, 2);
    assert((seq![' '] + rest).drop_first() =~= rest);
}

proof fn lemma_agg_read(e: ExprV, rest: Seq<char>)
    requires
        e is Agg,
        is_plain(e),
    ensures
        agg_call(expr_text(e) + rest) == Some((e, rest)),
        literal(expr_text(e) + rest) is None,
        expr_text(e).len() > 0,
        is_letter(expr_text(e)[0]),
{
    if let ExprV::Agg { func, lens, rel_start, rel_end } = e {
        reveal_strlit("(");
        reveal_strlit(", ");
        reveal_strlit(")");
        let t = expr_text(e) + rest;
        let t5 = ")"@ + rest;
        let t4 = int_text(rel_end as int) + t5;
        let t3 = int_text(rel_start as int) + (", "@ + t4);
        let t2 = lens + (", "@ + t3);
        let t1 = "("@ + t2;
        assert(t =~= agg_text(func) + t1);
        lemma_agg_word_read(func, t1);
        lemma_name_read(lens, ", "@ + t3);
        assert(t1.drop_first() =~= t2);
        assert(spaced_mark(t1, '(') == Some(t2));
        lemma_integer_read(rel_start, ", "@ + t4);
        assert(", "@ =~= seq![',', ' ']);
        lemma_mark_gap(", "@, ',', t3);
        lemma_integer_read(rel_end, t5);
        lemma_mark_gap(", "@, ',', t4);
        assert(t5.drop_first() =~= rest);
        assert(mark(blanks(t5), ')') == Some(rest));
        assert(t[0] == agg_text(func)[0]);
        lemma_not_word_literal(t);
        assert(t.skip(0) =~= t);
        assert(digits_len(t) == 0);
    }
}

/// How strongly an operator binds.
spec fn strength(op: BinOp) -> int {
    match op {
        BinOp::Or => 0,
        BinOp::And => 1,
        BinOp::Eq => 2,
        BinOp::NotEq => 2,
        BinOp::Lt => 2,
        BinOp::LtEq => 2,
        BinOp::Gt => 2,
        BinOp::GtEq => 2,
        BinOp::Add => 3,
        BinOp::Sub => 3,
        BinOp::Mul => 4,
        BinOp::Div => 4,
        BinOp::Mod => 4,
    }
}

/// No operator of strength `n` or more stands next.
spec fn quiet(n: int, s: Seq<char>) -> bool {
    forall|k: int| n <= k < 5 ==> (#[trigger] operator(k, blanks(s))) is None
}

proof fn lemma_reveal_operators()
    ensures
        "||"@ == seq!['|', '|'],
        "&&"@ == seq!['&', '&'],
        "=="@ == seq!['=', '='],
        "!="@ == seq!['!', '='],
        "<="@ == seq!['<', '='],
        ">="@ == seq!['>', '='],
        "<"@ == seq!['<'],
        ">"@ == seq!['>'],
        "+"@ == seq!['+'],
        "-"@ == seq!['-'],
        "*"@ == seq!['*'],
        "/"@ == seq!['/'],
        "%"@ == seq!['%'],
{
    reveal_strlit("||");
    reveal_strlit("&&");
    reveal_strlit("==");
    reveal_strlit("!=");
    reveal_strlit("<=");
    reveal_strlit(">=");
    reveal_strlit("<");
    reveal_strlit(">");
    reveal_strlit("+");
    reveal_strlit("-");
    reveal_strlit("*");
    reveal_strlit("/");
    reveal_strlit("%");
    assert("||"@ =~= seq!['|', '|']);
    assert("&&"@ =~= seq!['&', '&']);
    assert("=="@ =~= seq!['=', '=']);
    assert("!="@ =~= seq!['!', '=']);
    assert("<="@ =~= seq!['<', '=']);
    assert(">="@ =~= seq!['>', '=']);
    assert("<"@ =~= seq!['<']);
    assert(">"@ =~= seq!['>']);
    assert("+"@ =~= seq!['+']);
    assert("-"@ =~= seq!['-']);
    assert("*"@ =~= seq!['*']);
    assert("/"@ =~= seq!['/']);
    assert("%"@ =~= seq!['%']);
}

/// The two places at which the signs of operators differ decide which of them a text
/// starts with.
proof fn lemma_signs_differ(s: Seq<char>)
    ensures
        (s.len() == 0 || s[0] != '|') ==> word(s, "||"@) is None,
        (s.len() == 0 || s[0] != '&') ==> word(s, "&&"@) is None,
        (s.len() < 1 || s[0] != '=') ==> word(s, "=="@) is None,
        (s.len() < 1 || s[0] != '!') ==> word(s, "!="@) is None,
        (s.len() < 2 || s[0] != '<' || s[1] != '=') ==> word(s, "<="@) is None,
        (s.len() < 2 || s[0] != '>' || s[1] != '=') ==> word(s, ">="@) is None,
        (s.len() == 0 || s[0] != '<') ==> word(s, "<"@) is None,
        (s.len() == 0 || s[0] != '>') ==> word(s, ">"@) is None,
        (s.len() == 0 || s[0] != '+') ==> word(s, "+"@) is None,
        (s.len() == 0 || s[0] != '-') ==> word(s, "-"@) is None,
        (s.len() == 0 || s[0] != '*') ==> word(s, "*"@) is None,
        (s.len() == 0 || s[0] != '/') ==> word(s, "/"@) is None,
        (s.len() == 0 || s[0] != '%') ==> word(s, "%"@) is None,
{
    lemma_reveal_operators();
    if s.len() == 0 || s[0] != '|' {
        lemma_word_differs(s, "||"@, 0);
    }
    if s.len() == 0 || s[0] != '&' {
        lemma_word_differs(s, "&&"@, 0);
    }
    if s.len() == 0 || s[0] != '=' {
        lemma_word_differs(s, "=="@, 0);
    }
    if s.len() == 0 || s[0] != '!' {
        lemma_word_differs(s, "!="@, 0);
    }
    if s.len() == 0 || s[0] != '<' {
        lemma_word_differs(s, "<"@, 0);
        lemma_word_differs(s, "<="@, 0);
    } else if s.len() < 2 || s[1] != '=' {
        lemma_word_differs(s, "<="@, 1);
    }
    if s.len() == 0 || s[0] != '>' {
        lemma_word_differs(s, ">"@, 0);
        lemma_word_differs(s, ">="@, 0);
    } else if s.len() < 2 || s[1] != '=' {
        lemma_word_differs(s, ">="@, 1);
    }
    if s.len() == 0 || s[0] != '+' {
        lemma_word_differs(s, "+"@, 0);
    }
    if s.len() == 0 || s[0] != '-' {
        lemma_word_differs(s, "-"@, 0);
    }
    if s.len() == 0 || s[0] != '*' {
        lemma_word_differs(s, "*"@, 0);
    }
    if s.len() == 0 || s[0] != '/' {
        lemma_word_differs(s, "/"@, 0);
    }
    if s.len() == 0 || s[0] != '%' {
        lemma_word_differs(s, "%"@, 0);
    }
}

/// The sign of an operator with a blank behind it reads as that operator, at its own
/// strength alone.
proof fn lemma_operator_read(op: BinOp, rest: Seq<char>)
    requires
        rest.len() > 0,
        rest[0] == ' ',
    ensures
        operator(strength(op), op_text(op) + rest) == Some((op, rest)),
        forall|k: int|
            0 <= k < 5 && k != strength(op) ==> (#[trigger] operator(k, op_text(op) + rest)) is None,
        op_text(op).len() > 0,
        !is_blank(op_text(op)[0]),
        op_text(op)[0] != '(',
{
    lemma_reveal_operators();
    let s = op_text(op) + rest;
    lemma_signs_differ(s);
    lemma_word_read(op_text(op), rest);
    assert(s[0] == op_text(op)[0]);
    if op_text(op).len() == 1 {
        assert(s[1] == ' ');
    } else {
        assert(s[1] == op_text(op)[1]);
    }
}

/// No operator stands at the end, in front of a closing bracket, or in front of a letter.
proof fn lemma_quiet(s: Seq<char>)
    requires
        s.len() == 0 || s[0] == ')' || (s[0] == ' ' && s.len() > 1 && is_letter(s[1])),
    ensures
        quiet(0, s),
{
    let t = blanks(s);
    if s.len() > 0 && s[0] == ' ' {
        reveal_with_fuel(blanks, 2);
        assert(s.drop_first()[0] == s[1]);
    }
    assert forall|k: int| 0 <= k < 5 implies (#[trigger] operator(k, blanks(s))) is None by {
        lemma_signs_differ(t);
    }
}

/// Where no operator follows, an operand is an expression of every strength.
proof fn lemma_level_quiet(n: int, m: int, s: Seq<char>)
    requires
        0 <= n <= m <= 5,
        level(m, s) is Some,
        (level(m, s)->0).1.len() < s.len(),
        quiet(n, (level(m, s)->0).1),
    ensures
        level(n, s) == level(m, s),
    decreases m - n,
{
    if n < m {
        let (e, rest) = level(m, s)->0;
        assert(operator(m - 1, blanks(rest)) is None);
        if m - 1 == 2 {
            assert(compared(e, rest) == (e, rest));
        } else {
            assert(chain(m - 1, e, rest) == (e, rest));
        }
        assert(level((m - 1) + 1, s) == Some((e, rest)));
        assert(level(m - 1, s) == level(m, s));
        lemma_level_quiet(n, m - 1, s);
    }
}


/// A bracketed operation of two operands that read back reads back.
proof fn lemma_binary_read(e: ExprV, rest: Seq<char>)
    requires
        e is Binary,
        is_plain(e),
        forall|r: Seq<char>|
            closes(r) ==> #[trigger] signed(expr_text(*e->lhs) + r) == Some((*e->lhs, r)),
        forall|r: Seq<char>|
            closes(r) ==> #[trigger] signed(expr_text(*e->rhs) + r) == Some((*e->rhs, r)),
        expr_text(*e->lhs).len() > 0,
        opens(expr_text(*e->lhs)[0]),
        expr_text(*e->rhs).len() > 0,
        opens(expr_text(*e->rhs)[0]),
    ensures
        bracketed(expr_text(e) + rest) == Some((e, rest)),
        expr_text(e).len() > 0,
        expr_text(e)[0] == '(',
{
    if let ExprV::Binary { op, lhs, rhs } = e {
        reveal_strlit("(");
        reveal_strlit(" ");
        reveal_strlit(")");
        let left = expr_text(*lhs);
        let right = expr_text(*rhs);
        let end = ")"@ + rest;
        let tail = right + end;
        let behind = " "@ + tail;
        let m = " "@ + (op_text(op) + behind);
        let t = left + m;
        let s = expr_text(e) + rest;
        assert(s =~= "("@ + t);
        let j = strength(op);
        assert(tail[0] == right[0]);
        lemma_operator_read(op, behind);
        assert((op_text(op) + behind)[0] == op_text(op)[0]);
        lemma_gap_read(op_text(op) + behind);
        lemma_gap_read(tail);
        // The left operand.
        assert(closes(m));
        assert(signed(t) == Some((*lhs, m)));
        assert(level(5, t) == Some((*lhs, m)));
        assert(quiet(j + 1, m));
        lemma_level_quiet(j + 1, 5, t);
        // The right operand.
        assert(blanks(end) =~= end);
        assert(closes(end));
        lemma_quiet(end);
        assert(signed(tail) == Some((*rhs, end)));
        assert(level(5, tail) == Some((*rhs, end)));
        lemma_level_quiet(j + 1, 5, tail);
        // The two with the operator between them.
        let whole = binary(op, *lhs, *rhs);
        assert(whole == e);
        assert(operator(j, blanks(m)) == Some((op, behind)));
        assert(operator(j, blanks(end)) is None);
        assert(level(j, t) == Some((whole, end))) by {
            if j == 2 {
                assert(compared(*lhs, m) == (whole, end));
            } else {
                assert(chain(j, whole, end) == (whole, end));
                assert(chain(j, *lhs, m) == chain(j, whole, end));
            }
        }
        lemma_level_quiet(0, j, t);
        assert(s.drop_first() =~= t);
        assert(t[0] == left[0]);
        assert(blanks(t) == t);
        assert(end.drop_first() =~= rest);
    }
}

/// The text of an expression, as an operand, reads back as the expression.
proof fn lemma_operand_read(e: ExprV, rest: Seq<char>)
    requires
        is_plain(e),
        closes(rest),
    ensures
        signed(expr_text(e) + rest) == Some((e, rest)),
        expr_text(e).len() > 0,
        opens(expr_text(e)[0]),
    decreases e,
{
    let s = expr_text(e) + rest;
    match e {
        ExprV::Lit(l) => {
            lemma_literal_read(l, rest);
            assert(s[0] == literal_text(l)[0]);
            if s[0] == '-' {
                lemma_lowest_read(rest);
            }
            assert(blanks(s) == s);
            assert(bracketed(s) is None);
            assert(primary(s) == Some((e, rest)));
        },
        ExprV::Ident(n) => {
            lemma_ident_read(n, rest);
        },
        ExprV::Unary { op, expr } => {
            reveal_strlit("-");
            reveal_strlit("!");
            lemma_operand_read(*expr, rest);
            assert(s.drop_first() =~= expr_text(*expr) + rest);
        },
        ExprV::Binary { op, lhs, rhs } => {
            assert forall|r: Seq<char>| closes(r) implies #[trigger] signed(expr_text(*lhs) + r)
                == Some((*lhs, r)) by {
                lemma_operand_read(*lhs, r);
            }
            assert forall|r: Seq<char>| closes(r) implies #[trigger] signed(expr_text(*rhs) + r)
                == Some((*rhs, r)) by {
                lemma_operand_read(*rhs, r);
            }
            lemma_operand_read(*lhs, rest);
            lemma_operand_read(*rhs, rest);
            lemma_binary_read(e, rest);
            assert(s[0] == '(');
        },
        ExprV::Agg { func, lens, rel_start, rel_end } => {
            lemma_agg_read(e, rest);
            assert(s[0] == expr_text(e)[0]);
        },
    }
}

/// The opposite of the lowest integer is no operand.
proof fn lemma_lowest_read(rest: Seq<char>)
    requires
        closes(rest),
    ensures
        signed((int_text(i64::MIN as int) + rest).drop_first()) is None,
{
    let m = 0x8000_0000_0000_0000nat;
    lemma_decimal_value(m);
    let d = decimal(m);
    let s = int_text(i64::MIN as int) + rest;
    let t = s.drop_first();
    assert(t =~= d + rest);
    assert(t[0] == d[0]);
    assert(is_digit(d[0]));
    lemma_digits_len(d, rest);
    assert(t.skip(0) =~= t);
    assert(t.subrange(0, d.len() as int) =~= d);
    lemma_not_word_literal(t);
    if t.len() > d.len() {
        assert(t[d.len() as int] == rest[0]);
    }
    assert(literal(t) is None);
    reveal_strlit("min");
    reveal_strlit("max");
    reveal_strlit("avg");
    reveal_strlit("sum");
    reveal_strlit("count");
    lemma_word_differs(t, "min"@, 0);
    lemma_word_differs(t, "max"@, 0);
    lemma_word_differs(t, "avg"@, 0);
    lemma_word_differs(t, "sum"@, 0);
    lemma_word_differs(t, "count"@, 0);
    assert(blanks(t) == t);
    assert(bracketed(t) is None);
    assert(primary(t) is None);
}


/// Where a number behind a minus sign is read as one literal, the number alone is read as
/// a literal too, but for the lowest integer.
proof fn lemma_sign_apart(t: Seq<char>)
    requires
        t.len() > 0,
        t[0] == '-',
        literal(t) is Some,
    ensures
        literal(t.drop_first()) is Some || (literal(t)->0).0 == LiteralV::Int(i64::MIN),
        t.len() > 1,
        is_digit(t[1]),
{
    lemma_not_word_literal(t);
    let u = t.drop_first();
    assert(t.skip(1) =~= u);
    assert(u.skip(0) =~= u);
    let n = digits_len(u) as int;
    lemma_lens(u);
    assert(u[0] == t[1]);
    assert(is_digit(u[0]));
    if decimal_number(t) is Some {
        assert(u[n] == t[1 + n]);
        assert(t.skip(1 + n + 1) =~= u.skip(n + 1));
        assert(decimal_number(u) is Some);
    } else {
        assert(t.subrange(1, 1 + n) =~= u.subrange(0, n));
        let m = digits_value(u.subrange(0, n));
        if m <= i64::MAX {
            assert(integer(u) is Some);
        }
    }
}

/// What is read as a literal and has no minus sign in front can stand in an expression.
proof fn lemma_literal_plain(t: Seq<char>)
    requires
        literal(t) is Some,
        t.len() == 0 || t[0] != '-',
    ensures
        is_plain_literal((literal(t)->0).0),
{
    let (l, rest) = literal(t)->0;
    match l {
        LiteralV::Str(s) => {
            lemma_quoted_made(t);
        },
        LiteralV::Float(s) => {
            let n = digits_len(t) as int;
            assert(t.skip(0) =~= t);
            lemma_lens(t);
            let f = digits_len(t.skip(n + 1)) as int;
            lemma_lens(t.skip(n + 1));
            assert(s == t.take(n + 1 + f));
            assert(s[0] == t[0]);
            assert(s.skip(0) =~= s);
            let head = t.take(n);
            let tail = t.skip(n + 1).take(f);
            assert(s =~= head + (seq!['.'] + tail));
            lemma_digits_len(head, seq!['.'] + tail);
            assert(s.skip(n + 1) =~= tail);
            assert(tail + Seq::<char>::empty() =~= tail);
            lemma_digits_len(tail, Seq::empty());
        },
        _ => {},
    }
}

proof fn lemma_blanks_done(s: Seq<char>)
    ensures
        blanks(blanks(s)) == blanks(s),
    decreases s.len(),
{
    if s.len() > 0 && is_blank(s[0]) {
        lemma_blanks_done(s.drop_first());
    }
}

pub proof fn lemma_level_plain(n: int, s: Seq<char>)
    ensures
        level(n, s) matches Some((e, _)) ==> is_plain(e),
    decreases s.len(), (if 0 <= n < 5 { 10 - n } else { 5int }),
{
    if n < 0 || n >= 5 {
        lemma_signed_plain(s);
    } else {
        lemma_level_plain(n + 1, s);
        if let Some((first, rest)) = level(n + 1, s) {
            if rest.len() < s.len() {
                if n == 2 {
                    lemma_compared_plain(first, rest);
                } else {
                    lemma_chain_plain(n, first, rest);
                }
            }
        }
    }
}

proof fn lemma_chain_plain(n: int, acc: ExprV, s: Seq<char>)
    requires
        is_plain(acc),
    ensures
        is_plain(chain(n, acc, s).0),
    decreases s.len(), 0int,
{
    if let Some((op, s1)) = operator(n, blanks(s)) {
        if blanks(s1).len() < s.len() {
            lemma_level_plain(n + 1, blanks(s1));
            if let Some((rhs, s2)) = level(n + 1, blanks(s1)) {
                if s2.len() < s.len() {
                    lemma_chain_plain(n, binary(op, acc, rhs), s2);
                }
            }
        }
    }
}

proof fn lemma_compared_plain(lhs: ExprV, s: Seq<char>)
    requires
        is_plain(lhs),
    ensures
        is_plain(compared(lhs, s).0),
    decreases s.len(), 0int,
{
    if let Some((op, s1)) = operator(2, blanks(s)) {
        if blanks(s1).len() < s.len() {
            lemma_level_plain(3, blanks(s1));
        }
    }
}

proof fn lemma_signed_plain(s: Seq<char>)
    ensures
        signed(s) matches Some((e, _)) ==> is_plain(e),
    decreases s.len(), 4int,
{
    lemma_blanks(s);
    lemma_blanks_done(s);
    let t = blanks(s);
    if t.len() > 0 && (t[0] == '-' || t[0] == '!') {
        lemma_signed_plain(t.drop_first());
    }
    if signed(s) is Some {
        if t.len() > 0 && t[0] == '-' {
            if signed(t.drop_first()) is None {
                if literal(t) is Some {
                    lemma_sign_apart(t);
                    let u = t.drop_first();
                    assert(u[0] == t[1]);
                    assert(blanks(u) == u);
                    if literal(u) is Some {
                        assert(primary(u) is Some);
                        assert(signed(u) is Some);
                    }
                }
                lemma_primary_plain(t);
            }
        } else if t.len() > 0 && t[0] == '!' && signed(t.drop_first()) is Some {
        } else {
            lemma_primary_plain(t);
        }
    }
}

proof fn lemma_bracketed_plain(s: Seq<char>)
    ensures
        bracketed(s) matches Some((e, _)) ==> is_plain(e),
    decreases s.len(), 1int,
{
    if s.len() > 0 && s[0] == '(' {
        lemma_blanks(s.drop_first());
        lemma_level_plain(0, blanks(s.drop_first()));
    }
}

proof fn lemma_primary_plain(t: Seq<char>)
    requires
        blanks(t) == t,
        t.len() > 0 && t[0] == '-' && literal(t) is Some ==> is_plain_literal((literal(t)->0).0),
    ensures
        primary(t) matches Some((e, _)) ==> is_plain(e),
    decreases t.len(), 3int,
{
    lemma_bracketed_plain(t);
    if bracketed(t) is Some {
    } else if literal(t) is Some {
        if t.len() == 0 || t[0] != '-' {
            lemma_literal_plain(t);
        }
    } else if agg_call(t) is Some {
        let p2 = spaced_mark((agg_word(t)->0).1, '(');
        lemma_name_made(p2->0);
    } else if name(t) is Some {
        lemma_name_made(t);
        let n = (name(t)->0).0;
        lemma_lens(t);
        lemma_prefix_not_word(t, name_len(t) as int, "null"@);
        lemma_prefix_not_word(t, name_len(t) as int, "true"@);
        lemma_prefix_not_word(t, name_len(t) as int, "false"@);
    }
}

/// The front of a text starts with no word that the text does not start with.
proof fn lemma_prefix_not_word(t: Seq<char>, n: int, w: Seq<char>)
    requires
        0 <= n <= t.len(),
        word(t, w) is None,
    ensures
        word(t.take(n), w) is None,
{
    if n >= w.len() {
        assert(t.take(n).take(w.len() as int) =~= t.take(w.len() as int));
    }
}

/// The text of an expression that the parser made reads back as the expression.
pub proof fn law_expression_reads_back(s: Seq<char>)
    requires
        level(0, s) is Some,
    ensures
        level(0, expr_text((level(0, s)->0).0)) == Some(((level(0, s)->0).0, Seq::<char>::empty())),
{
    let e = (level(0, s)->0).0;
    lemma_level_plain(0, s);
    lemma_expr_read(e, Seq::empty());
    assert(expr_text(e) + Seq::<char>::empty() =~= expr_text(e));
}

/// The text of an expression reads back where it ends, or a word follows.
pub proof fn lemma_expr_read(e: ExprV, rest: Seq<char>)
    requires
        is_plain(e),
        rest.len() == 0 || (rest[0] == ' ' && rest.len() > 1 && is_letter(rest[1])),
    ensures
        level(0, expr_text(e) + rest) == Some((e, rest)),
        starts(expr_text(e) + rest),
{
    if rest.len() > 0 {
        reveal_with_fuel(blanks, 2);
        assert(rest.drop_first()[0] == rest[1]);
    }
    lemma_operand_read(e, rest);
    assert((expr_text(e) + rest)[0] == expr_text(e)[0]);
    lemma_quiet(rest);
    assert(level(5, expr_text(e) + rest) == Some((e, rest)));
    lemma_level_quiet(0, 5, expr_text(e) + rest);
}

} // verus!
