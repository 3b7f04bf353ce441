//! The schema log reads back: every statement that changes the schema is written to the
//! log as a text that parses to the same statement.

use crate::ast::{Cap, ExprV, StmtV, TriggerKindV};
use crate::lex::{blanks, gap, infix_word, is_letter, keyword, name, quoted, spaced_mark, word};
use crate::parser::{
    all_caps, any_statement, append, at, axes_clause, backup, batch_append, call_function, cap_word,
    comma_cap, comma_caps, comma_name, comma_names, commit, copy, create, create_any,
    create_database, create_function, create_lens, create_user, derive_stmt, drop_database,
    drop_lens, drop_stmt, drop_user, either_caps, expr, grant, history, lens_suffix, no_caps,
    optional, over_clause, range, reduce, restore, revoke, rollback, set_ttl, show,
    start_transaction, statement, trigger_clause, type_word, unset_ttl, use_database, write_trigger,
    xderive,
};
use crate::render::{
    axes_text, cap_item, caps_text, comma_names_text, expr_text, over_text, schema_text_of,
    trigger_text,
};
use crate::reread::{
    ends_name, is_name, is_plain, is_quotable, lemma_expr_read, lemma_gap_read, lemma_infix_read,
    lemma_integer_read, lemma_keyword_read, lemma_level_plain, lemma_mark_gap, lemma_name_made,
    lemma_name_read, lemma_quoted_made, lemma_quoted_read, lemma_word_differs, lemma_word_read,
    starts,
};
use crate::text::int_text;
use crate::value::Type;
use vstd::prelude::*;
use vstd::string::*;

verus! {

/// A statement that changes the schema, as the parser makes it.
pub open spec fn is_plain_schema(stmt: StmtV) -> bool {
    match stmt {
        StmtV::Create { name, ty, axes } => is_name(name) && forall|i: int|
            0 <= i < axes.len() ==> is_name(#[trigger] axes[i]),
        StmtV::Derive { name, expr, range } => is_name(name) && is_plain(expr),
        StmtV::Xderive { name, expr, range } => is_name(name) && is_plain(expr),
        StmtV::Drop { name } => is_name(name),
        StmtV::SetTtl { name, secs } => is_name(name),
        StmtV::UnsetTtl { name } => is_name(name),
        StmtV::CreateFunction { name, kind, caps, body } => {
            &&& is_name(name)
            &&& kind matches TriggerKindV::OnWrite { lens: Some(l) } ==> is_name(l)
            &&& caps != no_caps()
            &&& is_quotable(body)
        },
        StmtV::DropFunction { name } => is_name(name),
        _ => false,
    }
}

/// The first two characters of a text decide which statement it can be.
proof fn lemma_first_words(s: Seq<char>)
    requires
        s.len() >= 2,
    ensures
        s[0] != 'C' ==> create(s) is None && copy(s) is None && commit(s) is None && call_function(
            s,
        ) is None,
        s[0] != 'B' ==> batch_append(s) is None && backup(s) is None,
        s[0] != 'A' ==> append(s) is None && at(s) is None,
        s[0] != 'X' ==> xderive(s) is None,
        s[0] != 'D' || s[1] != 'E' ==> derive_stmt(s) is None,
        s[0] != 'R' ==> range(s) is None && reduce(s) is None && revoke(s) is None && rollback(
            s,
        ) is None && restore(s) is None,
        s[0] != 'D' || s[1] != 'R' ==> drop_stmt(s) is None,
        s[0] != 'U' || s[1] != 'S' ==> use_database(s) is None,
        s[0] != 'S' || s[1] != 'H' ==> show(s) is None,
        s[0] != 'G' ==> grant(s) is None,
        s[0] != 'S' || s[1] != 'T' ==> start_transaction(s) is None,
        s[0] != 'H' ==> history(s) is None,
        s[0] != 'S' || s[1] != 'E' ==> set_ttl(s) is None,
{
    reveal_strlit("CREATE");
    reveal_strlit("COPY");
    reveal_strlit("COMMIT");
    reveal_strlit("CALL");
    if s[0] != 'C' {
        lemma_word_differs(s, "CREATE"@, 0);
        lemma_word_differs(s, "COPY"@, 0);
        lemma_word_differs(s, "COMMIT"@, 0);
        lemma_word_differs(s, "CALL"@, 0);
    }
    reveal_strlit("BATCH");
    reveal_strlit("BACKUP");
    if s[0] != 'B' {
        lemma_word_differs(s, "BATCH"@, 0);
        lemma_word_differs(s, "BACKUP"@, 0);
    }
    reveal_strlit("APPEND");
    reveal_strlit("AT");
    if s[0] != 'A' {
        lemma_word_differs(s, "APPEND"@, 0);
        lemma_word_differs(s, "AT"@, 0);
    }
    reveal_strlit("XDERIVE");
    if s[0] != 'X' {
        lemma_word_differs(s, "XDERIVE"@, 0);
    }
    reveal_strlit("DERIVE");
    if s[0] != 'D' || s[1] != 'E' {
        lemma_word_differs(s, "DERIVE"@, if s[0] != 'D' { 0 } else { 1 });
    }
    reveal_strlit("RANGE");
    reveal_strlit("REDUCE");
    reveal_strlit("REVOKE");
    reveal_strlit("ROLLBACK");
    reveal_strlit("RESTORE");
    if s[0] != 'R' {
        lemma_word_differs(s, "RANGE"@, 0);
        lemma_word_differs(s, "REDUCE"@, 0);
        lemma_word_differs(s, "REVOKE"@, 0);
        lemma_word_differs(s, "ROLLBACK"@, 0);
        lemma_word_differs(s, "RESTORE"@, 0);
    }
    reveal_strlit("DROP");
    if s[0] != 'D' || s[1] != 'R' {
        lemma_word_differs(s, "DROP"@, if s[0] != 'D' { 0 } else { 1 });
    }
    reveal_strlit("USE");
    if s[0] != 'U' || s[1] != 'S' {
        lemma_word_differs(s, "USE"@, if s[0] != 'U' { 0 } else { 1 });
    }
    reveal_strlit("SHOW");
    if s[0] != 'S' || s[1] != 'H' {
        lemma_word_differs(s, "SHOW"@, if s[0] != 'S' { 0 } else { 1 });
    }
    reveal_strlit("GRANT");
    if s[0] != 'G' {
        lemma_word_differs(s, "GRANT"@, 0);
    }
    reveal_strlit("START");
    if s[0] != 'S' || s[1] != 'T' {
        lemma_word_differs(s, "START"@, if s[0] != 'S' { 0 } else { 1 });
    }
    reveal_strlit("HISTORY");
    if s[0] != 'H' {
        lemma_word_differs(s, "HISTORY"@, 0);
    }
    reveal_strlit("SET");
    if s[0] != 'S' || s[1] != 'E' {
        lemma_word_differs(s, "SET"@, if s[0] != 'S' { 0 } else { 1 });
    }
}

/// A statement that reads the whole text is what the text parses to.
proof fn lemma_whole(s: Seq<char>, stmt: StmtV)
    requires
        any_statement(s) == Some((stmt, Seq::<char>::empty())),
        starts(s),
    ensures
        statement(s) == Some((stmt, Seq::<char>::empty())),
{
    assert(blanks(s) == s);
}

proof fn lemma_drop_read(n: Seq<char>)
    requires
        is_name(n),
    ensures
        statement("DROP LENS "@ + n) == Some((StmtV::Drop { name: n }, Seq::<char>::empty())),
{
    reveal_strlit("DROP LENS ");
    reveal_strlit("DROP");
    reveal_strlit("LENS");
    reveal_strlit(" ");
    let s = "DROP LENS "@ + n;
    let s1 = "LENS"@ + " "@ + n;
    assert(n + Seq::<char>::empty() =~= n);
    lemma_name_read(n, Seq::empty());
    assert(s =~= "DROP"@ + " "@ + s1);
    lemma_keyword_read("DROP"@, s1);
    lemma_keyword_read("LENS"@, n);
    lemma_first_words(s);
    lemma_whole(s, StmtV::Drop { name: n });
}

proof fn lemma_drop_function_read(n: Seq<char>)
    requires
        is_name(n),
    ensures
        statement("DROP FUNCTION "@ + n) == Some(
            (StmtV::DropFunction { name: n }, Seq::<char>::empty()),
        ),
{
    reveal_strlit("DROP FUNCTION ");
    reveal_strlit("DROP");
    reveal_strlit("LENS");
    reveal_strlit("DATABASE");
    reveal_strlit("USER");
    reveal_strlit("FUNCTION");
    reveal_strlit(" ");
    let s = "DROP FUNCTION "@ + n;
    let s1 = "FUNCTION"@ + " "@ + n;
    assert(n + Seq::<char>::empty() =~= n);
    lemma_name_read(n, Seq::empty());
    assert(s =~= "DROP"@ + " "@ + s1);
    lemma_keyword_read("DROP"@, s1);
    lemma_word_differs(s1, "LENS"@, 0);
    lemma_word_differs(s1, "DATABASE"@, 0);
    lemma_word_differs(s1, "USER"@, 0);
    lemma_keyword_read("FUNCTION"@, n);
    lemma_first_words(s);
    lemma_whole(s, StmtV::DropFunction { name: n });
}

proof fn lemma_set_ttl_read(n: Seq<char>, secs: i64)
    requires
        is_name(n),
    ensures
        statement("SET TTL LENS "@ + n + " "@ + int_text(secs as int)) == Some(
            (StmtV::SetTtl { name: n, secs }, Seq::<char>::empty()),
        ),
{
    reveal_strlit("SET TTL LENS ");
    reveal_strlit("SET");
    reveal_strlit("TTL");
    reveal_strlit("LENS");
    reveal_strlit(" ");
    let i = int_text(secs as int);
    let s = "SET TTL LENS "@ + n + " "@ + i;
    let s3 = n + (" "@ + i);
    let s2 = "LENS"@ + " "@ + s3;
    let s1 = "TTL"@ + " "@ + s2;
    assert(i + Seq::<char>::empty() =~= i);
    lemma_integer_read(secs, Seq::empty());
    lemma_gap_read(i);
    lemma_name_read(n, " "@ + i);
    assert(s =~= "SET"@ + " "@ + s1);
    lemma_keyword_read("SET"@, s1);
    lemma_keyword_read("TTL"@, s2);
    lemma_keyword_read("LENS"@, s3);
    lemma_first_words(s);
    lemma_whole(s, StmtV::SetTtl { name: n, secs });
}

proof fn lemma_unset_ttl_read(n: Seq<char>)
    requires
        is_name(n),
    ensures
        statement("UNSET TTL LENS "@ + n) == Some(
            (StmtV::UnsetTtl { name: n }, Seq::<char>::empty()),
        ),
{
    reveal_strlit("UNSET TTL LENS ");
    reveal_strlit("UNSET");
    reveal_strlit("TTL");
    reveal_strlit("LENS");
    reveal_strlit(" ");
    let s = "UNSET TTL LENS "@ + n;
    let s2 = "LENS"@ + " "@ + n;
    let s1 = "TTL"@ + " "@ + s2;
    assert(n + Seq::<char>::empty() =~= n);
    lemma_name_read(n, Seq::empty());
    assert(s =~= "UNSET"@ + " "@ + s1);
    lemma_keyword_read("UNSET"@, s1);
    lemma_keyword_read("TTL"@, s2);
    lemma_keyword_read("LENS"@, n);
    lemma_first_words(s);
    lemma_whole(s, StmtV::UnsetTtl { name: n });
}

proof fn lemma_type_read(ty: Type, rest: Seq<char>)
    ensures
        type_word(ty.name() + rest) == Some((ty, rest)),
        starts(ty.name() + rest),
{
    reveal_strlit("int");
    reveal_strlit("float");
    reveal_strlit("str");
    reveal_strlit("bool");
    let t = ty.name() + rest;
    match ty {
        Type::Int => {},
        Type::Float => {
            lemma_word_differs(t, "int"@, 0);
        },
        Type::Str => {
            lemma_word_differs(t, "int"@, 0);
            lemma_word_differs(t, "float"@, 0);
        },
        Type::Bool => {
            lemma_word_differs(t, "int"@, 0);
            lemma_word_differs(t, "float"@, 0);
            lemma_word_differs(t, "str"@, 0);
        },
    }
    lemma_word_read(ty.name(), rest);
}

/// Names behind commas read back, up to a closing bracket.
proof fn lemma_comma_names_read(names: Seq<Seq<char>>, rest: Seq<char>)
    requires
        forall|i: int| 0 <= i < names.len() ==> is_name(#[trigger] names[i]),
        rest.len() > 0,
        rest[0] == ')',
    ensures
        comma_names(comma_names_text(names) + rest) == (names, rest),
        ends_name(comma_names_text(names) + rest),
    decreases names.len(),
{
    reveal_strlit(", ");
    let item = |s: Seq<char>| comma_name(s);
    let s = comma_names_text(names) + rest;
    if names.len() == 0 {
        assert(s =~= rest);
        assert(item(s) is None);
        assert(names =~= Seq::empty());
    } else {
        let more = names.drop_first();
        assert forall|i: int| 0 <= i < more.len() implies is_name(#[trigger] more[i]) by {
            assert(more[i] == names[i + 1]);
        }
        lemma_comma_names_read(more, rest);
        let s2 = comma_names_text(more) + rest;
        let s1 = names[0] + s2;
        assert(s =~= ", "@ + s1);
        lemma_name_read(names[0], s2);
        assert(", "@ =~= seq![',', ' ']);
        lemma_mark_gap(", "@, ',', s1);
        assert(item(s) == Some((names[0], s2)));
        assert(names =~= seq![names[0]] + more);
    }
}

proof fn lemma_axes_read(axes: Seq<Seq<char>>)
    requires
        forall|i: int| 0 <= i < axes.len() ==> is_name(#[trigger] axes[i]),
    ensures
        axes.len() == 0 ==> axes_clause(axes_text(axes)) is None,
        axes.len() > 0 ==> axes_clause(axes_text(axes)) == Some((axes, Seq::<char>::empty())),
{
    if axes.len() > 0 {
        reveal_strlit(" AXES (");
        reveal_strlit("AXES");
        reveal_strlit(" ");
        reveal_strlit(")");
        let more = axes.drop_first();
        assert forall|i: int| 0 <= i < more.len() implies is_name(#[trigger] more[i]) by {
            assert(more[i] == axes[i + 1]);
        }
        let end = ")"@;
        let s4 = comma_names_text(more) + end;
        let s3 = axes[0] + s4;
        let s2 = seq![' ', '('] + s3;
        let s1 = "AXES"@ + s2;
        assert(axes_text(axes) =~= " "@ + s1);
        lemma_comma_names_read(more, end);
        lemma_name_read(axes[0], s4);
        lemma_gap_read(s1);
        lemma_word_read("AXES"@, s2);
        reveal_with_fuel(blanks, 2);
        assert(s2.drop_first() =~= seq!['('] + s3);
        assert((seq!['('] + s3).drop_first() =~= s3);
        assert(spaced_mark(s2, '(') == Some(s3));
        assert(end.drop_first() =~= Seq::empty());
        assert(seq![axes[0]] + more =~= axes);
    }
}

proof fn lemma_create_read(n: Seq<char>, ty: Type, axes: Seq<Seq<char>>)
    requires
        is_name(n),
        forall|i: int| 0 <= i < axes.len() ==> is_name(#[trigger] axes[i]),
    ensures
        statement("CREATE LENS "@ + n + " "@ + ty.name() + axes_text(axes)) == Some(
            (StmtV::Create { name: n, ty, axes }, Seq::<char>::empty()),
        ),
{
    reveal_strlit("CREATE LENS ");
    reveal_strlit("CREATE");
    reveal_strlit("LENS");
    reveal_strlit(" ");
    let s = "CREATE LENS "@ + n + " "@ + ty.name() + axes_text(axes);
    let s4 = axes_text(axes);
    let s3 = ty.name() + s4;
    let s2 = n + (" "@ + s3);
    let s1 = "LENS"@ + " "@ + s2;
    lemma_axes_read(axes);
    lemma_type_read(ty, s4);
    lemma_gap_read(s3);
    lemma_name_read(n, " "@ + s3);
    lemma_keyword_read("LENS"@, s2);
    assert(s =~= "CREATE"@ + " "@ + s1);
    lemma_keyword_read("CREATE"@, s1);
    if axes.len() == 0 {
        assert(axes =~= Seq::empty());
    }
    assert(create_lens(s1) == Some((StmtV::Create { name: n, ty, axes }, Seq::<char>::empty())));
    lemma_first_words(s);
    lemma_whole(s, StmtV::Create { name: n, ty, axes });
}

proof fn lemma_over_read(range: Option<(i64, i64)>)
    ensures
        range is None ==> over_clause(over_text(range)) is None,
        range matches Some(w) ==> over_clause(over_text(range)) == Some((w, Seq::<char>::empty())),
        over_text(range).len() > 0 ==> over_text(range).len() > 1 && over_text(range)[0] == ' '
            && is_letter(over_text(range)[1]),
{
    if let Some((start, end)) = range {
        reveal_strlit(" OVER ");
        reveal_strlit("OVER");
        reveal_strlit(" ");
        let e = int_text(end as int);
        let b = int_text(start as int) + (" "@ + e);
        assert(over_text(range) =~= " "@ + "OVER"@ + " "@ + b);
        assert(e + Seq::<char>::empty() =~= e);
        lemma_integer_read(end, Seq::empty());
        lemma_gap_read(e);
        lemma_integer_read(start, " "@ + e);
        lemma_infix_read("OVER"@, b);
    }
}

/// What follows the first word of a derivation.
spec fn derivation(n: Seq<char>, e: ExprV, range: Option<(i64, i64)>) -> Seq<char> {
    "LENS"@ + " "@ + (n + (" "@ + "AS"@ + " "@ + (expr_text(e) + over_text(range))))
}

proof fn lemma_derivation_read(n: Seq<char>, e: ExprV, range: Option<(i64, i64)>)
    requires
        is_name(n),
        is_plain(e),
    ensures
        ({
            let p2 = keyword(derivation(n, e, range), "LENS"@);
            let lens = name(p2->0);
            let p4 = infix_word((lens->0).1, "AS"@);
            let body = expr(p4->0);
            let over = over_clause((body->0).1);
            &&& p2 is Some
            &&& lens is Some
            &&& (lens->0).0 == n
            &&& p4 is Some
            &&& body is Some
            &&& (body->0).0 == e
            &&& range is None ==> over is None && (body->0).1 == Seq::<char>::empty()
            &&& range matches Some(w) ==> over == Some((w, Seq::<char>::empty()))
        }),
        starts(derivation(n, e, range)),
{
    reveal_strlit("LENS");
    reveal_strlit("AS");
    reveal_strlit(" ");
    let s4 = expr_text(e) + over_text(range);
    let s3 = " "@ + "AS"@ + " "@ + s4;
    let s2 = n + s3;
    lemma_over_read(range);
    lemma_expr_read(e, over_text(range));
    lemma_infix_read("AS"@, s4);
    lemma_name_read(n, s3);
    lemma_keyword_read("LENS"@, s2);
}

proof fn lemma_derive_read(n: Seq<char>, e: ExprV, range: Option<(i64, i64)>)
    requires
        is_name(n),
        is_plain(e),
    ensures
        statement("DERIVE LENS "@ + n + " AS "@ + expr_text(e) + over_text(range)) == Some(
            (StmtV::Derive { name: n, expr: e, range }, Seq::<char>::empty()),
        ),
{
    let s = "DERIVE LENS "@ + n + " AS "@ + expr_text(e) + over_text(range);
    let s1 = derivation(n, e, range);
    lemma_derivation_read(n, e, range);
    assert(s =~= "DERIVE"@ + " "@ + s1 && s[0] == 'D' && s[1] == 'E') by {
        reveal_strlit("DERIVE LENS ");
        reveal_strlit("DERIVE");
        reveal_strlit("LENS");
        reveal_strlit(" AS ");
        reveal_strlit("AS");
        reveal_strlit(" ");
    }
    lemma_keyword_read("DERIVE"@, s1);
    lemma_first_words(s);
    let made = StmtV::Derive { name: n, expr: e, range };
    assert(derive_stmt(s) == Some((made, Seq::<char>::empty())));
    lemma_whole(s, made);
}

proof fn lemma_xderive_read(n: Seq<char>, e: ExprV, range: Option<(i64, i64)>)
    requires
        is_name(n),
        is_plain(e),
    ensures
        statement("XDERIVE LENS "@ + n + " AS "@ + expr_text(e) + over_text(range)) == Some(
            (StmtV::Xderive { name: n, expr: e, range }, Seq::<char>::empty()),
        ),
{
    let s = "XDERIVE LENS "@ + n + " AS "@ + expr_text(e) + over_text(range);
    let s1 = derivation(n, e, range);
    lemma_derivation_read(n, e, range);
    assert(s =~= "XDERIVE"@ + " "@ + s1 && s[0] == 'X') by {
        reveal_strlit("XDERIVE LENS ");
        reveal_strlit("XDERIVE");
        reveal_strlit("LENS");
        reveal_strlit(" AS ");
        reveal_strlit("AS");
        reveal_strlit(" ");
    }
    lemma_keyword_read("XDERIVE"@, s1);
    lemma_first_words(s);
    let made = StmtV::Xderive { name: n, expr: e, range };
    assert(xderive(s) == Some((made, Seq::<char>::empty())));
    lemma_whole(s, made);
}

/// The capability with a number, alone.
spec fn single(k: int) -> Cap {
    Cap {
        run: k == 0,
        at: k == 1,
        range: k == 2,
        log: k == 3,
        metric: k == 4,
        clock: k == 5,
    }
}

spec fn cap_name(k: int) -> Seq<char> {
    if k == 0 {
        "exec"@
    } else if k == 1 {
        "at"@
    } else if k == 2 {
        "range"@
    } else if k == 3 {
        "log"@
    } else if k == 4 {
        "metric"@
    } else {
        "clock"@
    }
}

spec fn holds(c: Cap, k: int) -> bool {
    if k == 0 {
        c.run
    } else if k == 1 {
        c.at
    } else if k == 2 {
        c.range
    } else if k == 3 {
        c.log
    } else if k == 4 {
        c.metric
    } else {
        c.clock
    }
}

/// The capabilities that are held, from number `k` on, one by one.
spec fn held(c: Cap, k: int) -> Seq<Cap>
    decreases 6 - k,
{
    if k >= 6 {
        Seq::empty()
    } else if holds(c, k) {
        seq![single(k)] + held(c, k + 1)
    } else {
        held(c, k + 1)
    }
}

/// Their names, each behind a comma.
spec fn held_text(c: Cap, k: int) -> Seq<char>
    decreases 6 - k,
{
    if k >= 6 {
        Seq::empty()
    } else {
        cap_item(holds(c, k), false, cap_name(k)) + held_text(c, k + 1)
    }
}

/// The first capability that is held.
spec fn first_held(c: Cap) -> int {
    if c.run {
        0
    } else if c.at {
        1
    } else if c.range {
        2
    } else if c.log {
        3
    } else if c.metric {
        4
    } else {
        5
    }
}

proof fn lemma_cap_item(held: bool, first: bool, name: Seq<char>)
    ensures
        !held ==> cap_item(held, first, name) == Seq::<char>::empty(),
        held && first ==> cap_item(held, first, name) == name,
{
    reveal(cap_item);
}

proof fn lemma_caps_text(c: Cap)
    requires
        c != no_caps(),
    ensures
        caps_text(c) == cap_name(first_held(c)) + held_text(c, first_held(c) + 1),
        holds(c, first_held(c)),
{
    let i0 = cap_item(c.run, true, "exec"@);
    let i1 = cap_item(c.at, !c.run, "at"@);
    let i2 = cap_item(c.range, !c.run && !c.at, "range"@);
    let i3 = cap_item(c.log, !c.run && !c.at && !c.range, "log"@);
    let i4 = cap_item(c.metric, !c.run && !c.at && !c.range && !c.log, "metric"@);
    let i5 = cap_item(c.clock, !c.run && !c.at && !c.range && !c.log && !c.metric, "clock"@);
    lemma_cap_item(c.run, true, "exec"@);
    lemma_cap_item(c.at, !c.run, "at"@);
    lemma_cap_item(c.range, !c.run && !c.at, "range"@);
    lemma_cap_item(c.log, !c.run && !c.at && !c.range, "log"@);
    lemma_cap_item(c.metric, !c.run && !c.at && !c.range && !c.log, "metric"@);
    lemma_cap_item(c.clock, !c.run && !c.at && !c.range && !c.log && !c.metric, "clock"@);
    let none = Seq::<char>::empty();
    let t5 = i5 + none;
    let t4 = i4 + t5;
    let t3 = i3 + t4;
    let t2 = i2 + t3;
    let t1 = i1 + t2;
    lemma_six(i0, i1, i2, i3, i4, i5);
    assert(caps_text(c) == i0 + t1);
    assert(held_text(c, 6) == none);
    let f = first_held(c);
    lemma_nothing_first(t1);
    lemma_nothing_first(t2);
    lemma_nothing_first(t3);
    lemma_nothing_first(t4);
    lemma_nothing_first(t5);
    if f < 5 {
        assert(held_text(c, 5) == t5);
    }
    if f < 4 {
        assert(held_text(c, 4) == t4);
    }
    if f < 3 {
        assert(held_text(c, 3) == t3);
    }
    if f < 2 {
        assert(held_text(c, 2) == t2);
    }
    if f < 1 {
        assert(held_text(c, 1) == t1);
    }
}

proof fn lemma_six(
    a: Seq<char>,
    b: Seq<char>,
    c: Seq<char>,
    d: Seq<char>,
    e: Seq<char>,
    f: Seq<char>,
)
    ensures
        a + b + c + d + e + f == a + (b + (c + (d + (e + (f + Seq::<char>::empty()))))),
{
    assert(a + b + c + d + e + f =~= a + (b + (c + (d + (e + (f + Seq::<char>::empty()))))));
}

proof fn lemma_nothing_first(a: Seq<char>)
    ensures
        Seq::<char>::empty() + a == a,
{
    assert(Seq::<char>::empty() + a =~= a);
}

proof fn lemma_all_caps_first(a: Cap, more: Seq<Cap>)
    ensures
        all_caps(seq![a] + more) == either_caps(a, all_caps(more)),
    decreases more.len(),
{
    let whole = seq![a] + more;
    if more.len() == 0 {
        assert(whole.drop_last() =~= Seq::empty());
        assert(all_caps(whole.drop_last()) == no_caps());
    } else {
        lemma_all_caps_first(a, more.drop_last());
        assert(whole.drop_last() =~= seq![a] + more.drop_last());
    }
}

/// The capabilities with a number from `k` on.
spec fn from_number(c: Cap, k: int) -> Cap {
    Cap {
        run: c.run && k <= 0,
        at: c.at && k <= 1,
        range: c.range && k <= 2,
        log: c.log && k <= 3,
        metric: c.metric && k <= 4,
        clock: c.clock && k <= 5,
    }
}

proof fn lemma_held_union(c: Cap, k: int)
    requires
        0 <= k <= 6,
    ensures
        all_caps(held(c, k)) == from_number(c, k),
    decreases 6 - k,
{
    if k < 6 {
        lemma_held_union(c, k + 1);
        if holds(c, k) {
            lemma_all_caps_first(single(k), held(c, k + 1));
        }
    }
}

proof fn lemma_cap_read(k: int, rest: Seq<char>)
    requires
        0 <= k < 6,
    ensures
        cap_word(cap_name(k) + rest) == Some((single(k), rest)),
        starts(cap_name(k) + rest),
{
    reveal_strlit("exec");
    reveal_strlit("at");
    reveal_strlit("range");
    reveal_strlit("log");
    reveal_strlit("metric");
    reveal_strlit("clock");
    let t = cap_name(k) + rest;
    lemma_word_read(cap_name(k), rest);
    if k > 0 {
        lemma_word_differs(t, "exec"@, 0);
    }
    if k > 1 {
        lemma_word_differs(t, "at"@, 0);
    }
    if k > 2 {
        lemma_word_differs(t, "range"@, 0);
    }
    if k > 3 {
        lemma_word_differs(t, "log"@, 0);
    }
    if k > 4 {
        lemma_word_differs(t, "metric"@, 0);
    }
}

/// The names of capabilities behind commas read back, up to a word.
proof fn lemma_held_read(c: Cap, k: int, rest: Seq<char>)
    requires
        0 <= k <= 6,
        rest.len() > 1,
        rest[0] == ' ',
        is_letter(rest[1]),
    ensures
        comma_caps(held_text(c, k) + rest) == (held(c, k), rest),
    decreases 6 - k,
{
    reveal_strlit(", ");
    reveal(cap_item);
    let item = |s: Seq<char>| comma_cap(s);
    let s = held_text(c, k) + rest;
    if k == 6 {
        assert(s =~= rest);
        reveal_with_fuel(blanks, 2);
        assert(rest.drop_first()[0] == rest[1]);
        assert(item(s) is None);
    } else {
        lemma_held_read(c, k + 1, rest);
        let s2 = held_text(c, k + 1) + rest;
        if holds(c, k) {
            let s1 = cap_name(k) + s2;
            assert(s =~= ", "@ + s1);
            lemma_cap_read(k, s2);
            assert(", "@ =~= seq![',', ' ']);
            lemma_mark_gap(", "@, ',', s1);
            assert(item(s) == Some((single(k), s2)));
        } else {
            assert(s =~= s2);
        }
    }
}

/// A trigger reads back in front of the capabilities.
proof fn lemma_trigger_read(kind: TriggerKindV, rest: Seq<char>)
    requires
        kind matches TriggerKindV::OnWrite { lens: Some(l) } ==> is_name(l),
        rest.len() > 1,
        rest[0] == ' ',
        rest[1] == 'C',
    ensures
        kind is OnDemand ==> trigger_clause(trigger_text(kind) + rest) is None,
        kind !is OnDemand ==> trigger_clause(trigger_text(kind) + rest) == Some((kind, rest)),
        ends_name(trigger_text(kind) + rest),
{
    reveal_strlit("ON");
    reveal_strlit("WRITE");
    reveal_strlit("LENS");
    reveal_strlit("PERMISSION");
    reveal_strlit("SCHEDULE");
    reveal_strlit("EVERY");
    reveal_strlit(" ");
    let t = trigger_text(kind) + rest;
    let after = rest.drop_first();
    assert(rest =~= " "@ + after);
    lemma_gap_read(after);
    lemma_word_differs(after, "LENS"@, 0);
    match kind {
        TriggerKindV::OnDemand => {
            assert(t =~= rest);
            lemma_word_differs(after, "ON"@, 0);
            lemma_word_differs(after, "SCHEDULE"@, 0);
        },
        TriggerKindV::OnWrite { lens } => {
            match lens {
                Some(l) => {
                    reveal_strlit(" ON WRITE LENS ");
                    let s3 = l + rest;
                    let s2 = " "@ + "LENS"@ + " "@ + s3;
                    let s1 = "WRITE"@ + s2;
                    assert(t =~= " "@ + "ON"@ + " "@ + s1);
                    lemma_infix_read("ON"@, s1);
                    lemma_word_read("WRITE"@, s2);
                    lemma_name_read(l, rest);
                    lemma_infix_read("LENS"@, s3);
                },
                None => {
                    reveal_strlit(" ON WRITE");
                    let s1 = "WRITE"@ + rest;
                    assert(t =~= " "@ + "ON"@ + " "@ + s1);
                    lemma_infix_read("ON"@, s1);
                    lemma_word_read("WRITE"@, rest);
                },
            }
        },
        TriggerKindV::OnPermission => {
            reveal_strlit(" ON PERMISSION");
            let s1 = "PERMISSION"@ + rest;
            assert(t =~= " "@ + "ON"@ + " "@ + s1);
            lemma_infix_read("ON"@, s1);
            lemma_word_differs(s1, "WRITE"@, 0);
            lemma_word_read("PERMISSION"@, rest);
        },
        TriggerKindV::Cron { every_secs } => {
            reveal_strlit(" SCHEDULE EVERY ");
            let s2 = int_text(every_secs as int) + rest;
            let s1 = "EVERY"@ + " "@ + s2;
            let s0 = "SCHEDULE"@ + " "@ + s1;
            assert(t =~= " "@ + "SCHEDULE"@ + " "@ + s1);
            assert(t =~= " "@ + s0);
            lemma_gap_read(s0);
            lemma_word_differs(s0, "ON"@, 0);
            lemma_infix_read("SCHEDULE"@, s1);
            lemma_integer_read(every_secs, rest);
            lemma_keyword_read("EVERY"@, s2);
        },
    }
}


/// What follows `AS` in the text of a function.
spec fn body_text(body: Seq<char>) -> Seq<char> {
    "\""@ + body + "\""@ + Seq::<char>::empty()
}

/// What follows the trigger in the text of a function.
spec fn caps_and_body(caps: Cap, body: Seq<char>) -> Seq<char> {
    " "@ + "CAPS"@ + " "@ + (cap_name(first_held(caps)) + (held_text(caps, first_held(caps) + 1) + (
    " "@ + "AS"@ + " "@ + body_text(body))))
}

proof fn lemma_caps_and_body_read(caps: Cap, body: Seq<char>)
    requires
        caps != no_caps(),
        is_quotable(body),
    ensures
        ({
            let s = caps_and_body(caps, body);
            let p4 = infix_word(s, "CAPS"@);
            let first = cap_word(p4->0);
            let rest = comma_caps((first->0).1);
            let p7 = infix_word(rest.1, "AS"@);
            &&& s.len() > 1
            &&& s[0] == ' '
            &&& s[1] == 'C'
            &&& p4 is Some
            &&& first is Some
            &&& all_caps(seq![(first->0).0] + rest.0) == caps
            &&& p7 is Some
            &&& quoted(p7->0) == Some((body, Seq::<char>::empty()))
        }),
{
    let f = first_held(caps);
    let s7 = body_text(body);
    let s6 = " "@ + "AS"@ + " "@ + s7;
    let s5 = held_text(caps, f + 1) + s6;
    let s4 = cap_name(f) + s5;
    lemma_quoted_read(body, Seq::empty());
    assert(starts(s7)) by {
        reveal_strlit("\"");
    }
    reveal_strlit("AS");
    reveal_strlit("CAPS");
    reveal_strlit(" ");
    lemma_infix_read("AS"@, s7);
    lemma_held_read(caps, f + 1, s6);
    lemma_cap_read(f, s5);
    lemma_infix_read("CAPS"@, s4);
    lemma_first_union(caps);
}

proof fn lemma_caps_and_body_text(caps: Cap, body: Seq<char>)
    requires
        caps != no_caps(),
    ensures
        caps_and_body(caps, body) == " CAPS "@ + (caps_text(caps) + (" AS \""@ + (body + "\""@))),
{
    reveal_strlit(" CAPS ");
    reveal_strlit("CAPS");
    reveal_strlit(" AS \"");
    reveal_strlit("AS");
    reveal_strlit("\"");
    reveal_strlit(" ");
    lemma_caps_text(caps);
    let f = first_held(caps);
    assert(" "@ + "AS"@ + " "@ + body_text(body) =~= " AS \""@ + (body + "\""@));
    let end = " AS \""@ + (body + "\""@);
    assert(" "@ + "CAPS"@ + " "@ =~= " CAPS "@);
    assert(cap_name(f) + (held_text(caps, f + 1) + end) =~= caps_text(caps) + end);
}

/// What follows `CREATE` in the text of a function.
spec fn function_text(n: Seq<char>, kind: TriggerKindV, caps: Cap, body: Seq<char>) -> Seq<char> {
    "FUNCTION"@ + " "@ + (n + (trigger_text(kind) + caps_and_body(caps, body)))
}

#[verifier::rlimit(40)]
proof fn lemma_function_text(n: Seq<char>, kind: TriggerKindV, caps: Cap, body: Seq<char>)
    requires
        caps != no_caps(),
    ensures
        "CREATE FUNCTION "@ + n + trigger_text(kind) + " CAPS "@ + caps_text(caps) + " AS \""@
            + body + "\""@ == "CREATE"@ + " "@ + function_text(n, kind, caps, body),
{
    lemma_caps_and_body_text(caps, body);
    let start = "CREATE FUNCTION "@;
    let k = trigger_text(kind);
    let a = " CAPS "@;
    let c = caps_text(caps);
    let b = " AS \""@;
    let q = "\""@;
    assert(start + n + k + a + c + b + body + q =~= start + (n + (k + (a + (c + (b + (body
        + q)))))));
    reveal_strlit("CREATE FUNCTION ");
    reveal_strlit("CREATE");
    reveal_strlit("FUNCTION");
    reveal_strlit(" ");
    let more = n + (k + (a + (c + (b + (body + q)))));
    assert(start + more =~= "CREATE"@ + " "@ + ("FUNCTION"@ + " "@ + more));
}

proof fn lemma_function_read(n: Seq<char>, kind: TriggerKindV, caps: Cap, body: Seq<char>)
    requires
        is_plain_schema(StmtV::CreateFunction { name: n, kind, caps, body }),
    ensures
        create_any(function_text(n, kind, caps, body)) == Some(
            (StmtV::CreateFunction { name: n, kind, caps, body }, Seq::<char>::empty()),
        ),
        starts(function_text(n, kind, caps, body)),
{
    let s1 = function_text(n, kind, caps, body);
    let s3 = caps_and_body(caps, body);
    let s2 = n + (trigger_text(kind) + s3);
    lemma_caps_and_body_read(caps, body);
    lemma_trigger_read(kind, s3);
    lemma_name_read(n, trigger_text(kind) + s3);
    if kind is OnDemand {
        assert(trigger_text(kind) + s3 =~= s3);
    }
    lemma_keyword_read("FUNCTION"@, s2);
    assert(starts(s1) && create_lens(s1) is None && create_database(s1) is None && create_user(
        s1,
    ) is None) by {
        reveal_strlit("LENS");
        reveal_strlit("DATABASE");
        reveal_strlit("USER");
        reveal_strlit("FUNCTION");
        lemma_word_differs(s1, "LENS"@, 0);
        lemma_word_differs(s1, "DATABASE"@, 0);
        lemma_word_differs(s1, "USER"@, 0);
    }
}

proof fn lemma_create_function_read(n: Seq<char>, kind: TriggerKindV, caps: Cap, body: Seq<char>)
    requires
        is_plain_schema(StmtV::CreateFunction { name: n, kind, caps, body }),
    ensures
        statement(
            "CREATE FUNCTION "@ + n + trigger_text(kind) + " CAPS "@ + caps_text(caps) + " AS \""@
                + body + "\""@,
        ) == Some((StmtV::CreateFunction { name: n, kind, caps, body }, Seq::<char>::empty())),
{
    let s1 = function_text(n, kind, caps, body);
    let s = "CREATE"@ + " "@ + s1;
    lemma_function_text(n, kind, caps, body);
    lemma_function_read(n, kind, caps, body);
    lemma_keyword_read("CREATE"@, s1);
    let made = StmtV::CreateFunction { name: n, kind, caps, body };
    assert(create(s) == Some((made, Seq::<char>::empty())));
    assert(starts(s)) by {
        reveal_strlit("CREATE");
    }
    lemma_whole(s, made);
}

/// The capabilities that are held, the first and the others, are the whole.
proof fn lemma_first_union(c: Cap)
    requires
        c != no_caps(),
    ensures
        all_caps(seq![single(first_held(c))] + held(c, first_held(c) + 1)) == c,
{
    let f = first_held(c);
    lemma_held_union(c, f);
    assert(held(c, f) == seq![single(f)] + held(c, f + 1));
}

pub proof fn lemma_schema_read(stmt: StmtV)
    requires
        is_plain_schema(stmt),
    ensures
        schema_text_of(stmt) matches Some(t) && statement(t) == Some((stmt, Seq::<char>::empty())),
{
    match stmt {
        StmtV::Create { name, ty, axes } => lemma_create_read(name, ty, axes),
        StmtV::Derive { name, expr, range } => lemma_derive_read(name, expr, range),
        StmtV::Xderive { name, expr, range } => lemma_xderive_read(name, expr, range),
        StmtV::Drop { name } => lemma_drop_read(name),
        StmtV::SetTtl { name, secs } => lemma_set_ttl_read(name, secs),
        StmtV::UnsetTtl { name } => lemma_unset_ttl_read(name),
        StmtV::CreateFunction { name, kind, caps, body } => lemma_create_function_read(
            name,
            kind,
            caps,
            body,
        ),
        StmtV::DropFunction { name } => lemma_drop_function_read(name),
        _ => {},
    }
}


/// Names read behind commas are names.
proof fn lemma_comma_names_made(s: Seq<char>)
    ensures
        forall|i: int| 0 <= i < comma_names(s).0.len() ==> is_name(#[trigger] comma_names(s).0[i]),
    decreases s.len(),
{
    let item = |s: Seq<char>| comma_name(s);
    if let Some((v, rest)) = item(s) {
        if rest.len() < s.len() {
            lemma_comma_names_made(rest);
            lemma_name_made(spaced_mark(s, ',')->0);
            let more = comma_names(rest).0;
            assert(comma_names(s).0 == seq![v] + more);
            assert forall|i: int| 0 <= i < comma_names(s).0.len() implies is_name(
                #[trigger] comma_names(s).0[i],
            ) by {
                if i > 0 {
                    assert(comma_names(s).0[i] == more[i - 1]);
                }
            }
        }
    }
}

proof fn lemma_create_lens_plain(s: Seq<char>)
    ensures
        create_lens(s) matches Some((stmt, _)) ==> is_plain_schema(stmt),
{
    if create_lens(s) is Some {
        let p1 = keyword(s, "LENS"@);
        lemma_name_made(p1->0);
        let lens = name(p1->0);
        let p3 = gap((lens->0).1);
        let ty = type_word(p3->0);
        let tail = (ty->0).1;
        if axes_clause(tail) is Some {
            let q2 = word(gap(tail)->0, "AXES"@);
            let q3 = spaced_mark(q2->0, '(');
            lemma_name_made(q3->0);
            let first = name(q3->0);
            lemma_comma_names_made((first->0).1);
            let more = comma_names((first->0).1).0;
            let axes = seq![(first->0).0] + more;
            assert forall|i: int| 0 <= i < axes.len() implies is_name(#[trigger] axes[i]) by {
                if i > 0 {
                    assert(axes[i] == more[i - 1]);
                }
            }
        }
    }
}

proof fn lemma_trigger_plain(s: Seq<char>)
    ensures
        trigger_clause(s) matches Some((TriggerKindV::OnWrite { lens: Some(l) }, _)) ==> is_name(l),
{
    if write_trigger(s) is Some {
        let p1 = infix_word(s, "ON"@);
        let p2 = word(p1->0, "WRITE"@);
        if lens_suffix(p2->0) is Some {
            lemma_name_made(infix_word(p2->0, "LENS"@)->0);
        }
    }
}

proof fn lemma_create_function_plain(s: Seq<char>)
    ensures
        create_function(s) matches Some((stmt, _)) ==> is_plain_schema(stmt),
{
    if create_function(s) is Some {
        let p1 = keyword(s, "FUNCTION"@);
        lemma_name_made(p1->0);
        let func = name(p1->0);
        lemma_trigger_plain((func->0).1);
        let kind = optional(trigger_clause((func->0).1), (func->0).1);
        let p4 = infix_word(kind.1, "CAPS"@);
        let first = cap_word(p4->0);
        let rest = comma_caps((first->0).1);
        lemma_all_caps_first((first->0).0, rest.0);
        assert(all_caps(seq![(first->0).0] + rest.0) != no_caps());
        let p7 = infix_word(rest.1, "AS"@);
        lemma_quoted_made(p7->0);
    }
}

proof fn lemma_derive_plain(s: Seq<char>)
    ensures
        derive_stmt(s) matches Some((stmt, _)) ==> is_plain_schema(stmt),
        xderive(s) matches Some((stmt, _)) ==> is_plain_schema(stmt),
{
    if derive_stmt(s) is Some {
        let p2 = keyword(keyword(s, "DERIVE"@)->0, "LENS"@);
        lemma_name_made(p2->0);
        let p4 = infix_word((name(p2->0)->0).1, "AS"@);
        lemma_level_plain(0, p4->0);
    }
    if xderive(s) is Some {
        let p2 = keyword(keyword(s, "XDERIVE"@)->0, "LENS"@);
        lemma_name_made(p2->0);
        let p4 = infix_word((name(p2->0)->0).1, "AS"@);
        lemma_level_plain(0, p4->0);
    }
}

proof fn lemma_drop_plain(s: Seq<char>)
    ensures
        drop_stmt(s) matches Some((stmt, _)) ==> schema_text_of(stmt) is Some ==> is_plain_schema(
            stmt,
        ),
{
    if drop_stmt(s) is Some {
        let t = keyword(s, "DROP"@)->0;
        if drop_lens(t) is Some {
            lemma_name_made(keyword(t, "LENS"@)->0);
        } else if drop_database(t) is Some {
        } else if drop_user(t) is Some {
        } else {
            lemma_name_made(keyword(t, "FUNCTION"@)->0);
        }
    }
}

proof fn lemma_ttl_plain(s: Seq<char>)
    ensures
        set_ttl(s) matches Some((stmt, _)) ==> is_plain_schema(stmt),
        unset_ttl(s) matches Some((stmt, _)) ==> is_plain_schema(stmt),
{
    if set_ttl(s) is Some {
        lemma_name_made(keyword(keyword(keyword(s, "SET"@)->0, "TTL"@)->0, "LENS"@)->0);
    }
    if unset_ttl(s) is Some {
        lemma_name_made(keyword(keyword(keyword(s, "UNSET"@)->0, "TTL"@)->0, "LENS"@)->0);
    }
}

proof fn lemma_create_plain(s: Seq<char>)
    ensures
        create(s) matches Some((stmt, _)) ==> schema_text_of(stmt) is Some ==> is_plain_schema(
            stmt,
        ),
{
    if create(s) is Some {
        let t = keyword(s, "CREATE"@)->0;
        lemma_create_lens_plain(t);
        lemma_create_function_plain(t);
    }
}

/// What the parser makes of a statement that changes the schema is plain.
pub proof fn lemma_statement_plain(s: Seq<char>)
    ensures
        any_statement(s) matches Some((stmt, _)) ==> schema_text_of(stmt) is Some
            ==> is_plain_schema(stmt),
{
    lemma_create_plain(s);
    lemma_derive_plain(s);
    lemma_drop_plain(s);
    lemma_ttl_plain(s);
}

/// Every statement that was parsed and changes the schema is logged as a text that parses
/// to the same statement, with nothing left over.
pub proof fn law_schema_text_reads_back(query: Seq<char>)
    requires
        statement(query) is Some,
    ensures
        schema_text_of((statement(query)->0).0) matches Some(text) ==> statement(text) == Some(
            ((statement(query)->0).0, Seq::<char>::empty()),
        ),
{
    lemma_statement_plain(blanks(query));
    let stmt = (statement(query)->0).0;
    if schema_text_of(stmt) is Some {
        lemma_schema_read(stmt);
    }
}

} // verus!
