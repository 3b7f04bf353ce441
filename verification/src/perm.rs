//! Permissions: which of create, read, update, delete and administer are granted.

use crate::exact::Exact;
use crate::text::{from_chars, to_chars};
use vstd::prelude::*;

verus! {

/// A set of permissions.
#[derive(Debug, Clone, Copy, PartialEq, Eq, Structural)]
pub struct Perm {
    pub create: bool,
    pub read: bool,
    pub update: bool,
    pub delete: bool,
    pub admin: bool,
}

impl Exact for Perm {
    fn dup(&self) -> (r: Self) {
        *self
    }
}

/// The permissions that at least one of two sets holds.
pub open spec fn either(a: Perm, b: Perm) -> Perm {
    Perm {
        create: a.create || b.create,
        read: a.read || b.read,
        update: a.update || b.update,
        delete: a.delete || b.delete,
        admin: a.admin || b.admin,
    }
}

pub open spec fn both(a: Perm, b: Perm) -> Perm {
    Perm {
        create: a.create && b.create,
        read: a.read && b.read,
        update: a.update && b.update,
        delete: a.delete && b.delete,
        admin: a.admin && b.admin,
    }
}

/// The permissions of `a` that `b` lacks.
pub open spec fn without(a: Perm, b: Perm) -> Perm {
    Perm {
        create: a.create && !b.create,
        read: a.read && !b.read,
        update: a.update && !b.update,
        delete: a.delete && !b.delete,
        admin: a.admin && !b.admin,
    }
}

pub open spec fn holds_all(a: Perm, b: Perm) -> bool {
    &&& b.create ==> a.create
    &&& b.read ==> a.read
    &&& b.update ==> a.update
    &&& b.delete ==> a.delete
    &&& b.admin ==> a.admin
}

pub open spec fn no_perm() -> Perm {
    Perm { create: false, read: false, update: false, delete: false, admin: false }
}

pub open spec fn all_perm() -> Perm {
    Perm { create: true, read: true, update: true, delete: true, admin: true }
}

/// The set of the one permission that a letter stands for, in either case.
pub open spec fn letter_perm(c: char) -> Option<Perm> {
    if c == 'C' || c == 'c' {
        Some(Perm { create: true, ..no_perm() })
    } else if c == 'R' || c == 'r' {
        Some(Perm { read: true, ..no_perm() })
    } else if c == 'U' || c == 'u' {
        Some(Perm { update: true, ..no_perm() })
    } else if c == 'D' || c == 'd' {
        Some(Perm { delete: true, ..no_perm() })
    } else if c == 'A' || c == 'a' {
        Some(Perm { admin: true, ..no_perm() })
    } else {
        None
    }
}

/// What a run of letters grants; blanks and tabs between them mean nothing. `None`
/// where a character is no letter of a permission.
pub open spec fn letters_perm(s: Seq<char>) -> Option<Perm>
    decreases s.len(),
{
    if s.len() == 0 {
        Some(no_perm())
    } else {
        match letters_perm(s.drop_last()) {
            None => None,
            Some(p) => if s.last() == ' ' || s.last() == '\t' {
                Some(p)
            } else {
                match letter_perm(s.last()) {
                    Some(q) => Some(either(p, q)),
                    None => None,
                }
            },
        }
    }
}

/// What a text grants: `*` is everything, `-` or nothing is nothing, and otherwise each
/// letter grants its permission.
pub open spec fn perm_of_text(s: Seq<char>) -> Option<Perm> {
    if s == seq!['*'] {
        Some(all_perm())
    } else if s == seq!['-'] {
        Some(no_perm())
    } else {
        letters_perm(s)
    }
}

spec fn if_held(held: bool, c: char) -> Seq<char> {
    if held {
        seq![c]
    } else {
        Seq::empty()
    }
}

/// The letters of a set, in the order CRUDA; `-` for none.
pub closed spec fn perm_text(p: Perm) -> Seq<char> {
    if p == no_perm() {
        seq!['-']
    } else {
        if_held(p.create, 'C') + if_held(p.read, 'R') + if_held(p.update, 'U') + if_held(
            p.delete,
            'D',
        ) + if_held(p.admin, 'A')
    }
}

impl Perm {
    pub fn none() -> (r: Perm)
        ensures
            r == no_perm(),
    {
        Perm { create: false, read: false, update: false, delete: false, admin: false }
    }

    pub fn all() -> (r: Perm)
        ensures
            r == all_perm(),
    {
        Perm { create: true, read: true, update: true, delete: true, admin: true }
    }

    pub fn c() -> (r: Perm)
        ensures
            r == (Perm { create: true, ..no_perm() }),
    {
        Perm { create: true, read: false, update: false, delete: false, admin: false }
    }

    pub fn r() -> (r: Perm)
        ensures
            r == (Perm { read: true, ..no_perm() }),
    {
        Perm { create: false, read: true, update: false, delete: false, admin: false }
    }

    pub fn u() -> (r: Perm)
        ensures
            r == (Perm { update: true, ..no_perm() }),
    {
        Perm { create: false, read: false, update: true, delete: false, admin: false }
    }

    pub fn d() -> (r: Perm)
        ensures
            r == (Perm { delete: true, ..no_perm() }),
    {
        Perm { create: false, read: false, update: false, delete: true, admin: false }
    }

    pub fn a() -> (r: Perm)
        ensures
            r == (Perm { admin: true, ..no_perm() }),
    {
        Perm { create: false, read: false, update: false, delete: false, admin: true }
    }

    pub fn union(self, other: Perm) -> (r: Perm)
        ensures
            r == either(self, other),
    {
        Perm {
            create: self.create || other.create,
            read: self.read || other.read,
            update: self.update || other.update,
            delete: self.delete || other.delete,
            admin: self.admin || other.admin,
        }
    }

    /// The permissions that both sets hold.
    pub fn intersection(self, other: Perm) -> (r: Perm)
        ensures
            r == both(self, other),
    {
        Perm {
            create: self.create && other.create,
            read: self.read && other.read,
            update: self.update && other.update,
            delete: self.delete && other.delete,
            admin: self.admin && other.admin,
        }
    }

    /// Whether every permission of `other` is held.
    pub fn contains(self, other: Perm) -> (r: bool)
        ensures
            r == holds_all(self, other),
    {
        (!other.create || self.create) && (!other.read || self.read) && (!other.update
            || self.update) && (!other.delete || self.delete) && (!other.admin || self.admin)
    }

    pub fn is_empty(self) -> (r: bool)
        ensures
            r == (self == no_perm()),
    {
        !self.create && !self.read && !self.update && !self.delete && !self.admin
    }

    pub fn insert(&mut self, other: Perm)
        ensures
            *final(self) == either(*old(self), other),
    {
        *self = self.union(other);
    }

    pub fn remove(&mut self, other: Perm)
        ensures
            *final(self) == without(*old(self), other),
    {
        *self = Perm {
            create: self.create && !other.create,
            read: self.read && !other.read,
            update: self.update && !other.update,
            delete: self.delete && !other.delete,
            admin: self.admin && !other.admin,
        };
    }

    pub open spec fn number(self) -> int {
        (if self.create { 1int } else { 0 }) + (if self.read { 2int } else { 0 }) + (
        if self.update { 4int } else { 0 }) + (if self.delete { 8int } else { 0 }) + (
        if self.admin { 16int } else { 0 })
    }

    /// The set as a number, one bit per permission in the order CRUDA, create lowest.
    pub fn bits(self) -> (r: u8)
        ensures
            r == self.number(),
    {
        let c: u8 = if self.create { 1 } else { 0 };
        let r: u8 = if self.read { 2 } else { 0 };
        let u: u8 = if self.update { 4 } else { 0 };
        let d: u8 = if self.delete { 8 } else { 0 };
        let a: u8 = if self.admin { 16 } else { 0 };
        c + r + u + d + a
    }

    /// The set whose number is the low five bits of `bits`.
    pub fn from_bits_truncate(bits: u8) -> (r: Perm)
        ensures
            r.number() == bits % 32,
    {
        let b: u8 = bits % 32;
        let admin: bool = b >= 16;
        let b3: u8 = if admin { b - 16 } else { b };
        let delete: bool = b3 >= 8;
        let b2: u8 = if delete { b3 - 8 } else { b3 };
        let update: bool = b2 >= 4;
        let b1: u8 = if update { b2 - 4 } else { b2 };
        let read: bool = b1 >= 2;
        let b0: u8 = if read { b1 - 2 } else { b1 };
        Perm { create: b0 == 1, read, update, delete, admin }
    }

    /// Reads a set from its text.
    pub fn parse(s: &str) -> (r: Result<Perm, String>)
        ensures
            r is Ok <==> perm_of_text(s@) is Some,
            r matches Ok(p) ==> perm_of_text(s@) == Some(p),
    {
        let chars = to_chars(s);
        assert(chars@.subrange(0, chars@.len() as int) =~= s@);
        Self::parse_chars(&chars, 0, chars.len())
    }

    /// Reads a set from the characters `chars[from..to]`.
    pub fn parse_chars(chars: &Vec<char>, from: usize, to: usize) -> (r: Result<Perm, String>)
        requires
            from <= to <= chars@.len(),
        ensures
            r is Ok <==> perm_of_text(chars@.subrange(from as int, to as int)) is Some,
            r matches Ok(p) ==> perm_of_text(chars@.subrange(from as int, to as int)) == Some(p),
    {
        let ghost text = chars@.subrange(from as int, to as int);
        if to - from == 1 && chars[from] == '*' {
            assert(text =~= seq!['*']);
            return Ok(Perm::all());
        }
        if to - from == 1 && chars[from] == '-' {
            assert(text =~= seq!['-']);
            assert(seq!['*'][0] != text[0]);
            return Ok(Perm::none());
        }
        proof {
            if text == seq!['*'] || text == seq!['-'] {
                assert(text[0] == chars@[from as int]);
            }
        }
        let mut p = Perm::none();
        let mut i: usize = from;
        assert(text.take(0) =~= Seq::empty());
        while i < to
            invariant
                from <= i <= to <= chars@.len(),
                text == chars@.subrange(from as int, to as int),
                text != seq!['*'],
                text != seq!['-'],
                letters_perm(text.take(i - from)) == Some(p),
            decreases to - i,
        {
            let c = chars[i];
            proof {
                assert(text.take(i - from + 1).drop_last() =~= text.take(i - from));
                assert(text.take(i - from + 1).last() == c);
            }
            if c != ' ' && c != '\t' {
                match Perm::letter(c) {
                    Some(q) => {
                        p.insert(q);
                    },
                    None => {
                        proof {
                            lemma_bad_letter(text, i - from);
                        }
                        return Err(from_chars(chars, i, i + 1));
                    },
                }
            }
            i = i + 1;
        }
        assert(text.take(text.len() as int) =~= text);
        Ok(p)
    }

    fn letter(c: char) -> (r: Option<Perm>)
        ensures
            r == letter_perm(c),
    {
        if c == 'C' || c == 'c' {
            Some(Perm::c())
        } else if c == 'R' || c == 'r' {
            Some(Perm::r())
        } else if c == 'U' || c == 'u' {
            Some(Perm::u())
        } else if c == 'D' || c == 'd' {
            Some(Perm::d())
        } else if c == 'A' || c == 'a' {
            Some(Perm::a())
        } else {
            None
        }
    }

    /// Appends the text of the set to `out`.
    pub fn push_text(self, out: &mut String)
        ensures
            final(out)@ == old(out)@ + perm_text(self),
    {
        if self.is_empty() {
            out.push('-');
        } else {
            if self.create {
                out.push('C');
            }
            if self.read {
                out.push('R');
            }
            if self.update {
                out.push('U');
            }
            if self.delete {
                out.push('D');
            }
            if self.admin {
                out.push('A');
            }
        }
        assert(out@ =~= old(out)@ + perm_text(self));
    }

    /// The letters of the set; `-` for none.
    pub fn text(self) -> (r: String)
        ensures
            r@ == perm_text(self),
    {
        let mut out = String::new();
        self.push_text(&mut out);
        assert(out@ =~= perm_text(self));
        out
    }
}

proof fn lemma_bad_letter(s: Seq<char>, i: int)
    requires
        0 <= i < s.len(),
        s[i] != ' ',
        s[i] != '\t',
        letter_perm(s[i]) is None,
    ensures
        letters_perm(s) is None,
    decreases s.len(),
{
    if i < s.len() - 1 {
        lemma_bad_letter(s.drop_last(), i);
    } else {
        assert(s.last() == s[i]);
    }
}

proof fn lemma_letters_append(s: Seq<char>, held: bool, c: char, p: Perm, q: Perm)
    requires
        letters_perm(s) == Some(p),
        letter_perm(c) == Some(q),
        c != ' ',
        c != '\t',
    ensures
        letters_perm(s + if_held(held, c)) == Some(
            if held {
                either(p, q)
            } else {
                p
            },
        ),
{
    if held {
        assert((s + if_held(held, c)).drop_last() =~= s);
        assert((s + if_held(held, c)).last() == c);
    } else {
        assert(s + if_held(held, c) =~= s);
    }
}

/// Reading the text of a set gives the set back.
pub proof fn law_text_reads_back(p: Perm)
    ensures
        perm_of_text(perm_text(p)) == Some(p),
{
    if p != no_perm() {
        let s0 = Seq::<char>::empty();
        let s1 = s0 + if_held(p.create, 'C');
        let s2 = s1 + if_held(p.read, 'R');
        let s3 = s2 + if_held(p.update, 'U');
        let s4 = s3 + if_held(p.delete, 'D');
        let s5 = s4 + if_held(p.admin, 'A');
        let p0 = no_perm();
        let p1 = Perm { create: p.create, ..p0 };
        let p2 = Perm { read: p.read, ..p1 };
        let p3 = Perm { update: p.update, ..p2 };
        let p4 = Perm { delete: p.delete, ..p3 };
        lemma_letters_append(s0, p.create, 'C', p0, letter_perm('C')->0);
        lemma_letters_append(s1, p.read, 'R', p1, letter_perm('R')->0);
        lemma_letters_append(s2, p.update, 'U', p2, letter_perm('U')->0);
        lemma_letters_append(s3, p.delete, 'D', p3, letter_perm('D')->0);
        lemma_letters_append(s4, p.admin, 'A', p4, letter_perm('A')->0);
        assert(s1 =~= if_held(p.create, 'C'));
        assert(perm_text(p) =~= s5);
        assert forall|i: int| 0 <= i < s5.len() implies #[trigger] s5[i] != '*' && s5[i] != '-' by {}
        if s5 == seq!['*'] || s5 == seq!['-'] {
            assert(s5[0] == '*' || s5[0] == '-');
        }
    }
}

/// Swapping two neighbouring letters changes nothing: the order of the letters is
/// irrelevant.
pub proof fn law_letter_order_is_irrelevant(s: Seq<char>, a: char, b: char, rest: Seq<char>)
    ensures
        letters_perm(s + seq![a, b] + rest) == letters_perm(s + seq![b, a] + rest),
    decreases rest.len(),
{
    let x = s + seq![a, b] + rest;
    let y = s + seq![b, a] + rest;
    if rest.len() == 0 {
        reveal_with_fuel(letters_perm, 3);
        assert(x =~= s.push(a).push(b));
        assert(y =~= s.push(b).push(a));
        assert(s.push(a).push(b).drop_last() =~= s.push(a));
        assert(s.push(b).push(a).drop_last() =~= s.push(b));
        assert(s.push(a).drop_last() =~= s);
        assert(s.push(b).drop_last() =~= s);
    } else {
        law_letter_order_is_irrelevant(s, a, b, rest.drop_last());
        assert(x.drop_last() =~= s + seq![a, b] + rest.drop_last());
        assert(y.drop_last() =~= s + seq![b, a] + rest.drop_last());
        assert(x.last() == y.last());
    }
}

/// Letters mean the same in either case.
pub proof fn law_case_is_irrelevant(s: Seq<char>, t: Seq<char>)
    requires
        s.len() == t.len(),
        forall|i: int|
            0 <= i < s.len() ==> (#[trigger] s[i] == t[i] || (letter_perm(s[i]) is Some
                && letter_perm(s[i]) == letter_perm(t[i]))),
    ensures
        letters_perm(s) == letters_perm(t),
    decreases s.len(),
{
    if s.len() > 0 {
        let (a, b) = (s.drop_last(), t.drop_last());
        assert forall|i: int| 0 <= i < a.len() implies (#[trigger] a[i] == b[i] || (letter_perm(
            a[i],
        ) is Some && letter_perm(a[i]) == letter_perm(b[i]))) by {
            assert(s[i] == t[i] || letter_perm(s[i]) == letter_perm(t[i]));
        }
        law_case_is_irrelevant(a, b);
        let n = s.len() - 1;
        assert(s[n] == t[n] || letter_perm(s[n]) == letter_perm(t[n]));
        assert(s.last() == s[n] && t.last() == t[n]);
    }
}

/// Union and intersection do not depend on order or grouping.
pub proof fn law_set_algebra(a: Perm, b: Perm, c: Perm)
    ensures
        either(a, b) == either(b, a),
        both(a, b) == both(b, a),
        either(either(a, b), c) == either(a, either(b, c)),
        both(both(a, b), c) == both(a, both(b, c)),
        holds_all(a, b) <==> both(a, b) == b,
        without(either(a, b), b) == without(a, b),
{
}

} // verus!
