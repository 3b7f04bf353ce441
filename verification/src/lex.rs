//! The smallest pieces of the query language: blanks, words, names, numbers and texts.
//!
//! Each piece comes as a spec function from a text to what it reads at the front of the
//! text and what it leaves, and as an executable function on a position in a vector of
//! characters.

use crate::text::{
    all_digits, digit_value, digits_value, from_chars, is_digit, to_chars,
};
use vstd::prelude::*;

verus! {

/// What a reader found, and the text that it left.
pub type Found<T> = Option<(T, Seq<char>)>;

pub open spec fn is_blank(c: char) -> bool {
    c == ' ' || c == '\t' || c == '\r' || c == '\n'
}

/// The text without its leading blanks.
pub open spec fn blanks(s: Seq<char>) -> Seq<char>
    decreases s.len(),
{
    if s.len() > 0 && is_blank(s[0]) {
        blanks(s.drop_first())
    } else {
        s
    }
}

/// At least one blank.
pub open spec fn gap(s: Seq<char>) -> Option<Seq<char>> {
    if s.len() > 0 && is_blank(s[0]) {
        Some(blanks(s))
    } else {
        None
    }
}

/// The given word.
pub open spec fn word(s: Seq<char>, w: Seq<char>) -> Option<Seq<char>> {
    if s.len() >= w.len() && s.take(w.len() as int) == w {
        Some(s.skip(w.len() as int))
    } else {
        None
    }
}

/// The given word, then at least one blank.
pub open spec fn keyword(s: Seq<char>, w: Seq<char>) -> Option<Seq<char>> {
    match word(s, w) {
        Some(s1) => gap(s1),
        None => None,
    }
}

/// The given word between two gaps.
pub open spec fn infix_word(s: Seq<char>, w: Seq<char>) -> Option<Seq<char>> {
    match gap(s) {
        Some(s1) => keyword(s1, w),
        None => None,
    }
}

/// The given character.
pub open spec fn mark(s: Seq<char>, c: char) -> Option<Seq<char>> {
    if s.len() > 0 && s[0] == c {
        Some(s.drop_first())
    } else {
        None
    }
}

/// The given character, with blanks around it.
pub open spec fn spaced_mark(s: Seq<char>, c: char) -> Option<Seq<char>> {
    match mark(blanks(s), c) {
        Some(s1) => Some(blanks(s1)),
        None => None,
    }
}

pub open spec fn is_letter(c: char) -> bool {
    'a' <= c <= 'z' || 'A' <= c <= 'Z'
}

pub open spec fn is_name_char(c: char) -> bool {
    is_letter(c) || is_digit(c) || c == '_'
}

/// How many characters at the front of the text can stand in a name.
pub open spec fn name_len(s: Seq<char>) -> nat
    decreases s.len(),
{
    if s.len() > 0 && is_name_char(s[0]) {
        1 + name_len(s.drop_first())
    } else {
        0
    }
}

/// A name: letters, digits and underscores, not starting with a digit.
pub open spec fn name(s: Seq<char>) -> Found<Seq<char>> {
    if s.len() > 0 && (is_letter(s[0]) || s[0] == '_') {
        Some((s.take(name_len(s) as int), s.skip(name_len(s) as int)))
    } else {
        None
    }
}

pub open spec fn letters_len(s: Seq<char>) -> nat
    decreases s.len(),
{
    if s.len() > 0 && is_letter(s[0]) {
        1 + letters_len(s.drop_first())
    } else {
        0
    }
}

pub open spec fn digits_len(s: Seq<char>) -> nat
    decreases s.len(),
{
    if s.len() > 0 && is_digit(s[0]) {
        1 + digits_len(s.drop_first())
    } else {
        0
    }
}

/// One or more digits that write a number of 64 bits without sign.
pub open spec fn unsigned(s: Seq<char>) -> Found<u64> {
    let n = digits_len(s) as int;
    if n > 0 && digits_value(s.take(n)) <= u64::MAX {
        Some((digits_value(s.take(n)) as u64, s.skip(n)))
    } else {
        None
    }
}

/// 1 where the text starts with a minus sign, 0 where it does not.
pub open spec fn sign_len(s: Seq<char>) -> int {
    if s.len() > 0 && s[0] == '-' {
        1
    } else {
        0
    }
}

/// Digits, perhaps behind a minus sign, that write a number of 64 bits with sign.
pub open spec fn integer(s: Seq<char>) -> Found<i64> {
    let k = sign_len(s);
    let n = digits_len(s.skip(k)) as int;
    let m = digits_value(s.subrange(k, k + n)) as int;
    let v = if k == 1 {
        -m
    } else {
        m
    };
    if n > 0 && i64::MIN <= v <= i64::MAX {
        Some((v as i64, s.skip(k + n)))
    } else {
        None
    }
}

/// How many characters a decimal number with a point takes at the front of the text;
/// 0 where there is none.
pub open spec fn decimal_len(s: Seq<char>) -> int {
    let k = sign_len(s);
    let n = digits_len(s.skip(k)) as int;
    if n > 0 && s.len() > k + n && s[k + n] == '.' {
        let f = digits_len(s.skip(k + n + 1)) as int;
        if f > 0 {
            k + n + 1 + f
        } else {
            0
        }
    } else {
        0
    }
}

/// A decimal number with a point, as it is written.
pub open spec fn decimal_number(s: Seq<char>) -> Found<Seq<char>> {
    let n = decimal_len(s);
    if n > 0 {
        Some((s.take(n), s.skip(n)))
    } else {
        None
    }
}

/// How many characters stand before the first double quote, or the end.
pub open spec fn unquoted_len(s: Seq<char>) -> nat
    decreases s.len(),
{
    if s.len() > 0 && s[0] != '"' {
        1 + unquoted_len(s.drop_first())
    } else {
        0
    }
}

/// A text between double quotes. There is no way to write a double quote in it.
pub open spec fn quoted(s: Seq<char>) -> Found<Seq<char>> {
    if s.len() > 0 && s[0] == '"' {
        let n = unquoted_len(s.skip(1)) as int;
        if 1 + n < s.len() {
            Some((s.subrange(1, 1 + n), s.skip(n + 2)))
        } else {
            None
        }
    } else {
        None
    }
}

pub proof fn lemma_blanks(s: Seq<char>)
    ensures
        blanks(s).len() <= s.len(),
        blanks(s) == s.skip(s.len() - blanks(s).len()),
    decreases s.len(),
{
    if s.len() > 0 && is_blank(s[0]) {
        lemma_blanks(s.drop_first());
        assert(s.drop_first().skip(s.len() - 1 - blanks(s).len()) =~= s.skip(
            s.len() - blanks(s).len(),
        ));
    } else {
        assert(s.skip(0) =~= s);
    }
}

pub proof fn lemma_lens(s: Seq<char>)
    ensures
        name_len(s) <= s.len(),
        letters_len(s) <= s.len(),
        digits_len(s) <= s.len(),
        unquoted_len(s) <= s.len(),
        all_digits(s.take(digits_len(s) as int)),
    decreases s.len(),
{
    if s.len() > 0 {
        lemma_lens(s.drop_first());
        assert forall|i: int| 0 <= i < digits_len(s) implies is_digit(
            #[trigger] s.take(digits_len(s) as int)[i],
        ) by {
            if i > 0 {
                assert(s.drop_first().take(digits_len(s.drop_first()) as int)[i - 1]
                    == s.take(digits_len(s) as int)[i]);
            }
        }
    }
}

/// Leaves the leading blanks behind.
pub fn skip_blanks(c: &Vec<char>, i: usize) -> (j: usize)
    requires
        i <= c@.len(),
    ensures
        i <= j <= c@.len(),
        c@.skip(j as int) == blanks(c@.skip(i as int)),
{
    let mut j: usize = i;
    while j < c.len() && (c[j] == ' ' || c[j] == '\t' || c[j] == '\r' || c[j] == '\n')
        invariant
            i <= j <= c@.len(),
            blanks(c@.skip(i as int)) == blanks(c@.skip(j as int)),
        decreases c@.len() - j,
    {
        assert(c@.skip(j as int).drop_first() =~= c@.skip(j + 1));
        j = j + 1;
    }
    j
}

pub fn read_gap(c: &Vec<char>, i: usize) -> (r: Option<usize>)
    requires
        i <= c@.len(),
    ensures
        match r {
            Some(j) => i < j <= c@.len() && gap(c@.skip(i as int)) == Some(c@.skip(j as int)),
            None => gap(c@.skip(i as int)) is None,
        },
{
    if i < c.len() && (c[i] == ' ' || c[i] == '\t' || c[i] == '\r' || c[i] == '\n') {
        let j: usize = skip_blanks(c, i + 1);
        assert(c@.skip(i as int).drop_first() =~= c@.skip(i + 1));
        Some(j)
    } else {
        None
    }
}

pub fn read_word(c: &Vec<char>, i: usize, w: &str) -> (r: Option<usize>)
    requires
        i <= c@.len(),
    ensures
        match r {
            Some(j) => j == i + w@.len() && j <= c@.len() && word(c@.skip(i as int), w@) == Some(
                c@.skip(j as int),
            ),
            None => word(c@.skip(i as int), w@) is None,
        },
{
    let t = to_chars(w);
    let n: usize = t.len();
    if c.len() - i < n {
        return None;
    }
    let mut k: usize = 0;
    while k < n
        invariant
            k <= n,
            n == t@.len(),
            t@ == w@,
            i + n <= c.len(),
            forall|p: int| 0 <= p < k ==> c@[i + p] == t@[p],
        decreases n - k,
    {
        if c[i + k] != t[k] {
            assert(c@.skip(i as int).take(n as int)[k as int] == c@[i + k]);
            return None;
        }
        k = k + 1;
    }
    assert(c@.skip(i as int).take(n as int) =~= w@);
    assert(c@.skip(i as int).skip(n as int) =~= c@.skip(i + n));
    Some(i + n)
}

pub fn read_keyword(c: &Vec<char>, i: usize, w: &str) -> (r: Option<usize>)
    requires
        i <= c@.len(),
    ensures
        match r {
            Some(j) => i < j <= c@.len() && keyword(c@.skip(i as int), w@) == Some(
                c@.skip(j as int),
            ),
            None => keyword(c@.skip(i as int), w@) is None,
        },
{
    match read_word(c, i, w) {
        Some(j) => read_gap(c, j),
        None => None,
    }
}

pub fn read_infix_word(c: &Vec<char>, i: usize, w: &str) -> (r: Option<usize>)
    requires
        i <= c@.len(),
    ensures
        match r {
            Some(j) => i < j <= c@.len() && infix_word(c@.skip(i as int), w@) == Some(
                c@.skip(j as int),
            ),
            None => infix_word(c@.skip(i as int), w@) is None,
        },
{
    match read_gap(c, i) {
        Some(j) => read_keyword(c, j, w),
        None => None,
    }
}

pub fn read_mark(c: &Vec<char>, i: usize, m: char) -> (r: Option<usize>)
    requires
        i <= c@.len(),
    ensures
        match r {
            Some(j) => j == i + 1 && j <= c@.len() && mark(c@.skip(i as int), m) == Some(
                c@.skip(j as int),
            ),
            None => mark(c@.skip(i as int), m) is None,
        },
{
    if i < c.len() && c[i] == m {
        assert(c@.skip(i as int).drop_first() =~= c@.skip(i + 1));
        Some(i + 1)
    } else {
        None
    }
}

pub fn read_spaced_mark(c: &Vec<char>, i: usize, m: char) -> (r: Option<usize>)
    requires
        i <= c@.len(),
    ensures
        match r {
            Some(j) => i < j <= c@.len() && spaced_mark(c@.skip(i as int), m) == Some(
                c@.skip(j as int),
            ),
            None => spaced_mark(c@.skip(i as int), m) is None,
        },
{
    let j: usize = skip_blanks(c, i);
    match read_mark(c, j, m) {
        Some(k) => Some(skip_blanks(c, k)),
        None => None,
    }
}

fn is_ascii_letter(c: char) -> (r: bool)
    ensures
        r == is_letter(c),
{
    ('a' <= c && c <= 'z') || ('A' <= c && c <= 'Z')
}

pub fn is_ascii_digit(c: char) -> (r: bool)
    ensures
        r == is_digit(c),
{
    '0' <= c && c <= '9'
}

pub fn read_name(c: &Vec<char>, i: usize) -> (r: Option<(String, usize)>)
    requires
        i <= c@.len(),
    ensures
        match r {
            Some((v, j)) => i < j <= c@.len() && name(c@.skip(i as int)) == Some(
                (v@, c@.skip(j as int)),
            ),
            None => name(c@.skip(i as int)) is None,
        },
{
    if i >= c.len() || !(is_ascii_letter(c[i]) || c[i] == '_') {
        return None;
    }
    let mut j: usize = i;
    while j < c.len() && (is_ascii_letter(c[j]) || is_ascii_digit(c[j]) || c[j] == '_')
        invariant
            i <= j <= c@.len(),
            name_len(c@.skip(i as int)) == j - i + name_len(c@.skip(j as int)),
        decreases c@.len() - j,
    {
        assert(c@.skip(j as int).drop_first() =~= c@.skip(j + 1));
        j = j + 1;
    }
    let v = from_chars(c, i, j);
    proof {
        let s = c@.skip(i as int);
        assert(name_len(s) == j - i);
        assert(s.take(j - i) =~= c@.subrange(i as int, j as int));
        assert(s.skip(j - i) =~= c@.skip(j as int));
        lemma_name_nonempty(s);
    }
    Some((v, j))
}

proof fn lemma_name_nonempty(s: Seq<char>)
    requires
        name(s) is Some,
    ensures
        name_len(s) > 0,
{
}

/// The end of the run of digits that starts at `i`.
pub fn digits_end(c: &Vec<char>, i: usize) -> (j: usize)
    requires
        i <= c@.len(),
    ensures
        i <= j <= c@.len(),
        digits_len(c@.skip(i as int)) == j - i,
        all_digits(c@.subrange(i as int, j as int)),
{
    let mut j: usize = i;
    while j < c.len() && is_ascii_digit(c[j])
        invariant
            i <= j <= c@.len(),
            digits_len(c@.skip(i as int)) == j - i + digits_len(c@.skip(j as int)),
            all_digits(c@.subrange(i as int, j as int)),
        decreases c@.len() - j,
    {
        proof {
            assert(c@.skip(j as int).drop_first() =~= c@.skip(j + 1));
            assert forall|p: int| 0 <= p < j + 1 - i implies is_digit(
                #[trigger] c@.subrange(i as int, j + 1)[p],
            ) by {
                if p < j - i {
                    assert(c@.subrange(i as int, j as int)[p] == c@.subrange(i as int, j + 1)[p]);
                }
            }
        }
        j = j + 1;
    }
    j
}

proof fn lemma_digits_grow(s: Seq<char>, k: int)
    requires
        0 <= k <= s.len(),
        all_digits(s),
    ensures
        digits_value(s.take(k)) <= digits_value(s),
    decreases s.len(),
{
    if k < s.len() {
        let front = s.drop_last();
        assert forall|i: int| 0 <= i < front.len() implies is_digit(#[trigger] front[i]) by {
            assert(is_digit(s[i]));
        }
        lemma_digits_grow(front, k);
        assert(front.take(k) =~= s.take(k));
    } else {
        assert(s.take(k) =~= s);
    }
}

fn digit_number(c: char) -> (r: u64)
    requires
        is_digit(c),
    ensures
        r == digit_value(c),
        r < 10,
{
    (c as u64) - ('0' as u64)
}

/// The number that the digits `c[i..j]` write, where it fits 64 bits.
pub fn number_of(c: &Vec<char>, i: usize, j: usize) -> (r: Option<u64>)
    requires
        i <= j <= c@.len(),
        all_digits(c@.subrange(i as int, j as int)),
    ensures
        r is Some <==> digits_value(c@.subrange(i as int, j as int)) <= u64::MAX,
        r matches Some(v) ==> v == digits_value(c@.subrange(i as int, j as int)),
{
    let ghost text = c@.subrange(i as int, j as int);
    let mut v: u64 = 0;
    let mut k: usize = i;
    assert(text.take(0) =~= Seq::empty());
    while k < j
        invariant
            i <= k <= j <= c@.len(),
            text == c@.subrange(i as int, j as int),
            all_digits(text),
            v == digits_value(text.take(k - i)),
        decreases j - k,
    {
        proof {
            assert(text.take(k - i + 1).drop_last() =~= text.take(k - i));
            assert(text.take(k - i + 1).last() == c@[k as int]);
            assert(is_digit(text[k - i]));
            lemma_digits_grow(text, k - i + 1);
        }
        let d: u64 = digit_number(c[k]);
        if v > u64::MAX / 10 {
            return None;
        }
        let t: u64 = v * 10;
        if t > u64::MAX - d {
            return None;
        }
        v = t + d;
        k = k + 1;
    }
    assert(text.take(text.len() as int) =~= text);
    Some(v)
}

pub fn read_unsigned(c: &Vec<char>, i: usize) -> (r: Option<(u64, usize)>)
    requires
        i <= c@.len(),
    ensures
        match r {
            Some((v, j)) => i < j <= c@.len() && unsigned(c@.skip(i as int)) == Some(
                (v, c@.skip(j as int)),
            ),
            None => unsigned(c@.skip(i as int)) is None,
        },
{
    let j: usize = digits_end(c, i);
    proof {
        let s = c@.skip(i as int);
        assert(s.take(j - i) =~= c@.subrange(i as int, j as int));
        assert(s.skip(j - i) =~= c@.skip(j as int));
    }
    if j == i {
        return None;
    }
    match number_of(c, i, j) {
        Some(v) => Some((v, j)),
        None => None,
    }
}

pub fn read_integer(c: &Vec<char>, i: usize) -> (r: Option<(i64, usize)>)
    requires
        i <= c@.len(),
    ensures
        match r {
            Some((v, j)) => i < j <= c@.len() && integer(c@.skip(i as int)) == Some(
                (v, c@.skip(j as int)),
            ),
            None => integer(c@.skip(i as int)) is None,
        },
{
    let negative: bool = i < c.len() && c[i] == '-';
    let d: usize = if negative {
        i + 1
    } else {
        i
    };
    let j: usize = digits_end(c, d);
    proof {
        let s = c@.skip(i as int);
        assert(sign_len(s) == d - i);
        assert(s.skip(d - i) =~= c@.skip(d as int));
        assert(s.subrange(d - i, j - i) =~= c@.subrange(d as int, j as int));
        assert(s.skip(j - i) =~= c@.skip(j as int));
    }
    if j == d {
        return None;
    }
    match number_of(c, d, j) {
        Some(m) => if negative {
            if m <= 9223372036854775807u64 {
                Some((0 - (m as i64), j))
            } else if m == 9223372036854775808u64 {
                Some((i64::MIN, j))
            } else {
                None
            }
        } else if m <= 9223372036854775807u64 {
            Some((m as i64, j))
        } else {
            None
        },
        None => None,
    }
}

/// The end of the decimal number with a point that starts at `i`; `None` where there is
/// none.
pub fn decimal_end(c: &Vec<char>, i: usize) -> (r: Option<usize>)
    requires
        i <= c@.len(),
    ensures
        match r {
            Some(j) => i < j <= c@.len() && decimal_len(c@.skip(i as int)) == j - i,
            None => decimal_len(c@.skip(i as int)) == 0,
        },
{
    let d: usize = if i < c.len() && c[i] == '-' {
        i + 1
    } else {
        i
    };
    let j: usize = digits_end(c, d);
    let ghost s = c@.skip(i as int);
    proof {
        assert(sign_len(s) == d - i);
        assert(s.skip(d - i) =~= c@.skip(d as int));
    }
    if j == d || j >= c.len() || c[j] != '.' {
        return None;
    }
    let f: usize = digits_end(c, j + 1);
    proof {
        assert(s.skip(j - i + 1) =~= c@.skip(j + 1));
    }
    if f == j + 1 {
        return None;
    }
    Some(f)
}

pub fn read_decimal(c: &Vec<char>, i: usize) -> (r: Option<(String, usize)>)
    requires
        i <= c@.len(),
    ensures
        match r {
            Some((v, j)) => i < j <= c@.len() && decimal_number(c@.skip(i as int)) == Some(
                (v@, c@.skip(j as int)),
            ),
            None => decimal_number(c@.skip(i as int)) is None,
        },
{
    match decimal_end(c, i) {
        Some(j) => {
            let v = from_chars(c, i, j);
            proof {
                let s = c@.skip(i as int);
                assert(s.take(j - i) =~= c@.subrange(i as int, j as int));
                assert(s.skip(j - i) =~= c@.skip(j as int));
            }
            Some((v, j))
        },
        None => None,
    }
}

pub fn read_quoted(c: &Vec<char>, i: usize) -> (r: Option<(String, usize)>)
    requires
        i <= c@.len(),
    ensures
        match r {
            Some((v, j)) => i < j <= c@.len() && quoted(c@.skip(i as int)) == Some(
                (v@, c@.skip(j as int)),
            ),
            None => quoted(c@.skip(i as int)) is None,
        },
{
    if i >= c.len() || c[i] != '"' {
        return None;
    }
    let mut j: usize = i + 1;
    while j < c.len() && c[j] != '"'
        invariant
            i < j <= c@.len(),
            unquoted_len(c@.skip(i + 1)) == j - i - 1 + unquoted_len(c@.skip(j as int)),
        decreases c@.len() - j,
    {
        assert(c@.skip(j as int).drop_first() =~= c@.skip(j + 1));
        j = j + 1;
    }
    let ghost s = c@.skip(i as int);
    proof {
        assert(s.skip(1) =~= c@.skip(i + 1));
    }
    if j >= c.len() {
        return None;
    }
    let v = from_chars(c, i + 1, j);
    proof {
        assert(s.subrange(1, j - i) =~= c@.subrange(i + 1, j as int));
        assert(s.skip(j - i + 1) =~= c@.skip(j + 1));
    }
    Some((v, j + 1))
}

/// The end of the run of letters that starts at `i`.
pub fn letters_end(c: &Vec<char>, i: usize) -> (j: usize)
    requires
        i <= c@.len(),
    ensures
        i <= j <= c@.len(),
        letters_len(c@.skip(i as int)) == j - i,
{
    let mut j: usize = i;
    while j < c.len() && is_ascii_letter(c[j])
        invariant
            i <= j <= c@.len(),
            letters_len(c@.skip(i as int)) == j - i + letters_len(c@.skip(j as int)),
        decreases c@.len() - j,
    {
        assert(c@.skip(j as int).drop_first() =~= c@.skip(j + 1));
        j = j + 1;
    }
    j
}

} // verus!
