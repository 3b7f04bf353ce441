//! What the status text of a process tells: lines of a key, a colon and a value.

use crate::copy::{find, find_char};
use crate::lex::{is_ascii_digit, number_of};
use crate::text::{
    all_digits, digits_value, is_digit, is_white_space, start_trimmed, to_chars, trim_start,
    white_space,
};
use vstd::prelude::*;

verus! {

/// How long the word is that a text begins with.
pub open spec fn word_len(s: Seq<char>) -> nat
    decreases s.len(),
{
    if s.len() == 0 || white_space(s[0]) {
        0
    } else {
        1 + word_len(s.drop_first())
    }
}

/// The second of the words of a text, which white space keeps apart.
pub open spec fn second_word(s: Seq<char>) -> Option<Seq<char>> {
    let first = trim_start(s);
    let second = trim_start(first.skip(word_len(first) as int));
    if second.len() == 0 {
        None
    } else {
        Some(second.take(word_len(second) as int))
    }
}

/// The number of 64 bits that a text writes in decimal. A plus sign may come first.
pub open spec fn natural_number(s: Seq<char>) -> Option<u64> {
    let digits = if s.len() > 0 && s[0] == '+' {
        s.skip(1)
    } else {
        s
    };
    if digits.len() > 0 && all_digits(digits) && digits_value(digits) <= u64::MAX {
        Some(digits_value(digits) as u64)
    } else {
        None
    }
}

/// The key of the line that counts threads.
pub open spec fn threads_key() -> Seq<char> {
    "Threads:"@
}

/// The line begins with the key.
pub open spec fn has_key(line: Seq<char>, key: Seq<char>) -> bool {
    line.len() >= key.len() && line.take(key.len() as int) == key
}

/// The number that a line gives; zero where it gives none.
pub open spec fn line_count(line: Seq<char>) -> u64 {
    match second_word(line) {
        None => 0,
        Some(word) => match natural_number(word) {
            None => 0,
            Some(n) => n,
        },
    }
}

/// How many threads a status text counts, on the first line that counts them; none where no
/// line does.
pub open spec fn thread_count(s: Seq<char>) -> u64
    decreases s.len(),
{
    let n = find(s, '\n');
    if has_key(s.take(n as int), threads_key()) {
        line_count(s.take(n as int))
    } else if n < s.len() {
        thread_count(s.skip(n as int + 1))
    } else {
        0
    }
}

/// Where the word ends that `c[from..to]` begins with.
fn word_end(c: &Vec<char>, from: usize, to: usize) -> (r: usize)
    requires
        from <= to <= c@.len(),
    ensures
        from <= r <= to,
        r - from == word_len(c@.subrange(from as int, to as int)),
{
    let mut i: usize = from;
    while i < to && !is_white_space(c[i])
        invariant
            from <= i <= to <= c@.len(),
            word_len(c@.subrange(from as int, to as int)) == i - from + word_len(
                c@.subrange(i as int, to as int),
            ),
        decreases to - i,
    {
        assert(c@.subrange(i as int, to as int).drop_first() =~= c@.subrange(i + 1, to as int));
        i = i + 1;
    }
    i
}

/// The number that `c[from..to]` writes.
fn parse_natural(c: &Vec<char>, from: usize, to: usize) -> (r: Option<u64>)
    requires
        from <= to <= c@.len(),
    ensures
        r == natural_number(c@.subrange(from as int, to as int)),
{
    let ghost s = c@.subrange(from as int, to as int);
    let d: usize = if from < to && c[from] == '+' {
        from + 1
    } else {
        from
    };
    let ghost digits = c@.subrange(d as int, to as int);
    proof {
        assert(if s.len() > 0 && s[0] == '+' {
            s.skip(1) =~= digits
        } else {
            s =~= digits
        });
    }
    if d == to {
        return None;
    }
    let mut i: usize = d;
    while i < to
        invariant
            d <= i <= to <= c@.len(),
            digits == c@.subrange(d as int, to as int),
            digits == if s.len() > 0 && s[0] == '+' {
                s.skip(1)
            } else {
                s
            },
            s == c@.subrange(from as int, to as int),
            forall|k: int| 0 <= k < i - d ==> is_digit(#[trigger] digits[k]),
        decreases to - i,
    {
        if !is_ascii_digit(c[i]) {
            assert(!is_digit(digits[i - d]));
            return None;
        }
        i = i + 1;
    }
    number_of(c, d, to)
}

/// Whether `c[from..to]` begins with `key`.
fn begins_with(c: &Vec<char>, from: usize, to: usize, key: &Vec<char>) -> (r: bool)
    requires
        from <= to <= c@.len(),
    ensures
        r == has_key(c@.subrange(from as int, to as int), key@),
{
    let ghost line = c@.subrange(from as int, to as int);
    if to - from < key.len() {
        return false;
    }
    let mut i: usize = 0;
    while i < key.len()
        invariant
            from <= to <= c@.len(),
            i <= key@.len() <= to - from,
            line == c@.subrange(from as int, to as int),
            forall|k: int| 0 <= k < i ==> line[k] == #[trigger] key@[k],
        decreases key@.len() - i,
    {
        if c[from + i] != key[i] {
            assert(line.take(key@.len() as int)[i as int] != key@[i as int]);
            return false;
        }
        i = i + 1;
    }
    assert(line.take(key@.len() as int) =~= key@);
    true
}

/// The number that the line `c[from..to]` gives.
fn count_on_line(c: &Vec<char>, from: usize, to: usize) -> (r: u64)
    requires
        from <= to <= c@.len(),
    ensures
        r == line_count(c@.subrange(from as int, to as int)),
{
    let a: usize = start_trimmed(c, from, to);
    let b: usize = word_end(c, a, to);
    proof {
        let first = c@.subrange(a as int, to as int);
        assert(first.skip(b - a) =~= c@.subrange(b as int, to as int));
    }
    let d: usize = start_trimmed(c, b, to);
    if d == to {
        return 0;
    }
    let e: usize = word_end(c, d, to);
    proof {
        let second = c@.subrange(d as int, to as int);
        assert(second.take(e - d) =~= c@.subrange(d as int, e as int));
    }
    match parse_natural(c, d, e) {
        None => 0,
        Some(n) => n,
    }
}

/// How many threads a status text counts.
pub fn threads_in(status: &str) -> (r: u64)
    ensures
        r == thread_count(status@),
{
    let c = to_chars(status);
    let key = to_chars("Threads:");
    let n: usize = c.len();
    let mut from: usize = 0;
    assert(c@.skip(0) =~= c@);
    loop
        invariant
            from <= n == c@.len(),
            c@ == status@,
            key@ == threads_key(),
            thread_count(status@) == thread_count(c@.skip(from as int)),
        decreases n - from,
    {
        let ghost rest = c@.skip(from as int);
        let to: usize = find_char(&c, from, n, '\n');
        proof {
            assert(c@.subrange(from as int, n as int) =~= rest);
            assert(rest.take(to - from) =~= c@.subrange(from as int, to as int));
        }
        if begins_with(&c, from, to, &key) {
            return count_on_line(&c, from, to);
        }
        if to == n {
            return 0;
        }
        assert(rest.skip(to - from + 1) =~= c@.skip(to + 1));
        from = to + 1;
    }
}

} // verus!
