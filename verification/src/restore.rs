//! What a restored database is: the schema that was backed up, and the same answers.

use crate::ast::{texts_view, Expr, Stmt, StmtV};
use crate::catalog::{
    acyclic, law_checked_derivation_stays_acyclic, law_dropped_derivation_stays_acyclic, 
    lemma_more_derivations, mentions, reaches, reaches_in, Derivations,
};
use crate::database::{is_max_layer_id, lemma_agree_chain, live_records, RecordV};
use crate::error::ExecErrorV;
use crate::eval::{expired, materialised};
use crate::inputs::Inputs;
use crate::layers::{agree, newest, Segment};
use crate::lex::blanks;
use crate::memory::stack_of;
use crate::names::{in_name_order, listed, lists_keys};
use crate::parser::statement;
use crate::query::{at_as_of_of, at_nd_of, at_of, range_answered};
use crate::recovery::{
    axes_in, backs_up, derive_records, empty_state, law_restore_keeps_layers, lists_state, rebuilt,
    record_replayed, replayed, state_records, stored_records, ttl_records, type_records, Listing,
};
use crate::replay::{is_plain_schema, lemma_schema_read, lemma_statement_plain};
use crate::restart::{
    equal_schema, lemma_boxes_written, lemma_file_copied, lemma_laid, lemma_live_layers,
    lemma_mentions_alike, lemma_rows_written, same_schema,
};
use crate::state::{
    after_trial, all_distinct, create_lens_of, definitions, lens_changed, literal_rows,
    materialised_lens, materialising, next_number, note, row_boxes, schema_record, segments_type,
    DefV, StateV, World,
};
use crate::value::Value;
use crate::windows::{answers_agree, at_sampler, in_segment, lemma_base_range_shows, shows};
use std::sync::Arc;
use vstd::prelude::*;

verus! {

/// What the statements on lenses keep of a schema: no definition leads back to itself, windows
/// belong to derived lenses, several and distinct axes to base lenses, definitions to base
/// lenses, and times to live to lenses of one axis.
pub open spec fn tidy(s: StateV) -> bool {
    &&& s.wf()
    &&& acyclic(definitions(s))
    &&& s.stored.dom().finite()
    &&& forall|n: Seq<char>| #[trigger] s.ranges.contains_key(n) ==> s.derived.contains_key(n)
    &&& forall|n: Seq<char>| #[trigger]
        s.axes.contains_key(n) ==> s.types.contains_key(n) && s.axes[n].len() > 1 && all_distinct(
            s.axes[n],
        )
    &&& forall|n: Seq<char>| #[trigger] s.stored.contains_key(n) ==> s.types.contains_key(n)
    &&& forall|n: Seq<char>| #[trigger]
        s.ttl.contains_key(n) ==> s.has_lens(n) && !s.axes.contains_key(n)
}

/// Every declaration of the schema is as the parser makes it.
pub open spec fn is_plain_state(s: StateV) -> bool {
    &&& forall|n: Seq<char>| #[trigger]
        s.types.contains_key(n) ==> is_plain_schema(
            StmtV::Create { name: n, ty: s.types[n], axes: axes_in(s.axes, n) },
        )
    &&& forall|n: Seq<char>| #[trigger]
        s.derived.contains_key(n) ==> is_plain_schema(
            StmtV::Derive { name: n, expr: s.derived[n]@, range: window_in(s, n) },
        )
    &&& forall|n: Seq<char>| #[trigger]
        s.stored.contains_key(n) ==> is_plain_schema(
            StmtV::Xderive { name: n, expr: s.stored[n].expr@, range: s.stored[n].range },
        )
    &&& forall|n: Seq<char>| #[trigger]
        s.ttl.contains_key(n) ==> is_plain_schema(StmtV::SetTtl { name: n, secs: s.ttl[n] })
}

/// The window of a derived lens, if it has one.
pub open spec fn window_in(s: StateV, n: Seq<char>) -> Option<(i64, i64)> {
    if s.ranges.contains_key(n) {
        Some(s.ranges[n])
    } else {
        None
    }
}

/// `u` has the part of the schema of `s` that concerns the listed lenses.
spec fn has_part(
    s: StateV,
    u: StateV,
    lazy: Seq<String>,
    base: Seq<String>,
    held: Seq<String>,
    timed: Seq<String>,
) -> bool {
    &&& forall|n: Seq<char>|
        {
            &&& #[trigger] u.derived.contains_key(n) <==> listed(lazy, n)
            &&& u.derived.contains_key(n) ==> u.derived[n]@ == s.derived[n]@
        }
    &&& forall|n: Seq<char>|
        {
            &&& #[trigger] u.ranges.contains_key(n) <==> listed(lazy, n) && s.ranges.contains_key(n)
            &&& u.ranges.contains_key(n) ==> u.ranges[n] == s.ranges[n]
        }
    &&& forall|n: Seq<char>|
        {
            &&& #[trigger] u.types.contains_key(n) <==> listed(base, n)
            &&& u.types.contains_key(n) ==> u.types[n] == s.types[n]
        }
    &&& forall|n: Seq<char>|
        {
            &&& #[trigger] u.axes.contains_key(n) <==> listed(base, n) && s.axes.contains_key(n)
            &&& u.axes.contains_key(n) ==> u.axes[n] == s.axes[n]
        }
    &&& forall|n: Seq<char>|
        {
            &&& #[trigger] u.stored.contains_key(n) <==> listed(held, n)
            &&& u.stored.contains_key(n) ==> u.stored[n].expr@ == s.stored[n].expr@
                && u.stored[n].range == s.stored[n].range
        }
    &&& forall|n: Seq<char>|
        {
            &&& #[trigger] u.ttl.contains_key(n) <==> listed(timed, n)
            &&& u.ttl.contains_key(n) ==> u.ttl[n] == s.ttl[n]
        }
}

proof fn lemma_listed_next(names: Seq<String>, i: int, n: Seq<char>)
    requires
        0 <= i < names.len(),
        in_name_order(names),
    ensures
        listed(names.take(i + 1), n) <==> listed(names.take(i), n) || n == names[i]@,
        !listed(names.take(i), names[i]@),
        listed(names, names[i]@),
{
    let some = names.take(i);
    let more = names.take(i + 1);
    if listed(more, n) {
        let k = choose|k: int| 0 <= k < more.len() && (#[trigger] more[k])@ == n;
        if k < i {
            assert(some[k]@ == n);
        }
    }
    if listed(some, n) {
        let k = choose|k: int| 0 <= k < some.len() && (#[trigger] some[k])@ == n;
        assert(more[k]@ == n);
    }
    if n == names[i]@ {
        assert(more[i]@ == n);
    }
    if listed(some, names[i]@) {
        let k = choose|k: int| 0 <= k < some.len() && (#[trigger] some[k])@ == names[i]@;
        assert(names[k]@ == names[i]@);
    }
}

/// Fewer derivations lead nowhere else.
proof fn lemma_reaches_within(
    few: Derivations,
    all: Derivations,
    e: &Expr,
    d: &Expr,
    lens: Seq<char>,
    k: nat,
)
    requires
        forall|n: Seq<char>| #[trigger]
            few.contains_key(n) ==> all.contains_key(n) && few[n]@ == all[n]@,
        e@ == d@,
        reaches_in(few, e, lens, k),
    ensures
        reaches_in(all, d, lens, k),
    decreases k,
{
    lemma_mentions_alike(e, d, lens);
    if !mentions(e, lens) {
        let via = choose|via: Seq<char>| #[trigger]
            mentions(e, via) && few.contains_key(via) && reaches_in(
                few,
                &*few[via],
                lens,
                (k - 1) as nat,
            );
        lemma_mentions_alike(e, d, via);
        lemma_reaches_within(few, all, &*few[via], &*all[via], lens, (k - 1) as nat);
    }
}

/// Taking up the declaration of a derived lens.
proof fn lemma_derive_taken(
    s: StateV,
    lazy: Seq<String>,
    i: int,
    u: World,
    inputs: &Inputs,
    after: World,
)
    requires
        tidy(s),
        is_plain_state(s),
        lists_keys(lazy, s.derived),
        0 <= i < lazy.len(),
        has_part(s, u.state, lazy.take(i), Seq::empty(), Seq::empty(), Seq::empty()),
        record_replayed(u, derive_records(lazy, s.derived, s.ranges)[i], inputs, after),
    ensures
        has_part(s, after.state, lazy.take(i + 1), Seq::empty(), Seq::empty(), Seq::empty()),
{
    let name = lazy[i]@;
    lemma_listed_next(lazy, i, name);
    assert(s.derived.contains_key(name));
    let v = StmtV::Derive { name, expr: s.derived[name]@, range: window_in(s, name) };
    assert(derive_records(lazy, s.derived, s.ranges)[i] == schema_record(v));
    lemma_schema_read(v);
    let (e, q) = choose|e: Stmt, q: Result<(), ExecErrorV>| #[trigger]
        lens_changed(u, &e, true, inputs, q, after) && e@ == v;
    if let Stmt::Derive { name: n, expr, range } = e {
        assert forall|m: Seq<char>| #[trigger] u.state.derived.contains_key(m) implies
            s.derived.contains_key(m) && u.state.derived[m]@ == s.derived[m]@ by {
            assert(listed(lazy.take(i), m));
            let k = choose|k: int| 0 <= k < lazy.take(i).len() && (#[trigger] lazy.take(i)[k])@ == m;
            assert(lazy[k]@ == m);
            assert(listed(lazy, m));
        }
        assert(!u.state.derived.contains_key(name));
        assert(!u.state.types.contains_key(name)) by {
            assert(u.state.types.contains_key(name) <==> listed(Seq::<String>::empty(), name));
        }
        let known = definitions(u.state);
        assert forall|m: Seq<char>| #[trigger] known.contains_key(m) implies s.derived.contains_key(m)
            && known[m]@ == s.derived[m]@ by {
            assert(u.state.stored.contains_key(m) ==> listed(Seq::<String>::empty(), m));
            assert(u.state.derived.contains_key(m));
        }
        if reaches(known, &expr, name) {
            let k = choose|k: nat| reaches_in(known, &expr, name, k);
            lemma_reaches_within(
                known,
                s.derived,
                &expr,
                &*s.derived[name],
                name,
                k,
            );
            assert(reaches(s.derived, &*s.derived[name], name));
        }
        assert forall|m: Seq<char>| !u.state.axes.contains_key(m) by {
            assert(u.state.axes.contains_key(m) ==> listed(Seq::<String>::empty(), m));
        }
        let a = after.state;
        assert forall|m: Seq<char>|
            {
                &&& #[trigger] a.derived.contains_key(m) <==> listed(lazy.take(i + 1), m)
                &&& a.derived.contains_key(m) ==> a.derived[m]@ == s.derived[m]@
            } by {
            lemma_listed_next(lazy, i, m);
            assert(u.state.derived.contains_key(m) <==> listed(lazy.take(i), m));
        }
        assert forall|m: Seq<char>|
            {
                &&& #[trigger] a.ranges.contains_key(m) <==> listed(lazy.take(i + 1), m)
                    && s.ranges.contains_key(m)
                &&& a.ranges.contains_key(m) ==> a.ranges[m] == s.ranges[m]
            } by {
            lemma_listed_next(lazy, i, m);
            assert(u.state.ranges.contains_key(m) <==> listed(lazy.take(i), m)
                && s.ranges.contains_key(m));
        }
    }
}

/// Taking up the declaration of a base lens.
#[verifier::rlimit(100)]
proof fn lemma_create_taken(
    s: StateV,
    lazy: Seq<String>,
    base: Seq<String>,
    i: int,
    u: World,
    inputs: &Inputs,
    after: World,
)
    requires
        tidy(s),
        is_plain_state(s),
        lists_keys(lazy, s.derived),
        lists_keys(base, s.types),
        0 <= i < base.len(),
        has_part(s, u.state, lazy, base.take(i), Seq::empty(), Seq::empty()),
        record_replayed(u, type_records(base, s.types, s.axes)[i], inputs, after),
    ensures
        has_part(s, after.state, lazy, base.take(i + 1), Seq::empty(), Seq::empty()),
{
    let name = base[i]@;
    lemma_listed_next(base, i, name);
    assert(s.types.contains_key(name));
    let v = StmtV::Create { name, ty: s.types[name], axes: axes_in(s.axes, name) };
    assert(type_records(base, s.types, s.axes)[i] == schema_record(v));
    lemma_schema_read(v);
    let (e, q) = choose|e: Stmt, q: Result<(), ExecErrorV>| #[trigger]
        lens_changed(u, &e, true, inputs, q, after) && e@ == v;
    if let Stmt::Create { name: n, ty, axes } = e {
        assert(!u.state.types.contains_key(name));
        assert(!u.state.derived.contains_key(name)) by {
            if u.state.derived.contains_key(name) {
                assert(s.derived.contains_key(name));
            }
        }
        let given = texts_view(axes@);
        assert(given == axes_in(s.axes, name));
        assert(all_distinct(given));
        assert((q, after) == create_lens_of(u, name, s.types[name], given, true));
        let a = after.state;
        assert(a.types == u.state.types.insert(name, s.types[name]));
        assert(a.axes == if s.axes.contains_key(name) {
            u.state.axes.insert(name, s.axes[name])
        } else {
            u.state.axes
        });
        assert(a.derived == u.state.derived && a.ranges == u.state.ranges && a.stored
            == u.state.stored && a.ttl == u.state.ttl);
        assert forall|m: Seq<char>|
            {
                &&& #[trigger] a.types.contains_key(m) <==> listed(base.take(i + 1), m)
                &&& a.types.contains_key(m) ==> a.types[m] == s.types[m]
            } by {
            lemma_listed_next(base, i, m);
            assert(u.state.types.contains_key(m) <==> listed(base.take(i), m));
        }
        assert forall|m: Seq<char>|
            {
                &&& #[trigger] a.axes.contains_key(m) <==> listed(base.take(i + 1), m)
                    && s.axes.contains_key(m)
                &&& a.axes.contains_key(m) ==> a.axes[m] == s.axes[m]
            } by {
            lemma_listed_next(base, i, m);
            assert(u.state.axes.contains_key(m) <==> listed(base.take(i), m)
                && s.axes.contains_key(m));
        }
    }
}

/// Taking up the definition of a materialised lens.
proof fn lemma_xderive_taken(
    s: StateV,
    lazy: Seq<String>,
    base: Seq<String>,
    held: Seq<String>,
    i: int,
    u: World,
    inputs: &Inputs,
    after: World,
)
    requires
        is_plain_state(s),
        lists_keys(held, s.stored),
        0 <= i < held.len(),
        has_part(s, u.state, lazy, base, held.take(i), Seq::empty()),
        record_replayed(u, stored_records(held, s.stored)[i], inputs, after),
    ensures
        has_part(s, after.state, lazy, base, held.take(i + 1), Seq::empty()),
{
    let name = held[i]@;
    lemma_listed_next(held, i, name);
    assert(s.stored.contains_key(name));
    let v = StmtV::Xderive {
        name,
        expr: s.stored[name].expr@,
        range: s.stored[name].range,
    };
    assert(stored_records(held, s.stored)[i] == schema_record(v));
    lemma_schema_read(v);
    let (e, q) = choose|e: Stmt, q: Result<(), ExecErrorV>| #[trigger]
        lens_changed(u, &e, true, inputs, q, after) && e@ == v;
    let a = after.state;
    assert forall|m: Seq<char>|
        {
            &&& #[trigger] a.stored.contains_key(m) <==> listed(held.take(i + 1), m)
            &&& a.stored.contains_key(m) ==> a.stored[m].expr@ == s.stored[m].expr@
                && a.stored[m].range == s.stored[m].range
        } by {
        lemma_listed_next(held, i, m);
        assert(u.state.stored.contains_key(m) <==> listed(held.take(i), m));
    }
}

/// Taking up a time to live.
proof fn lemma_ttl_taken(
    s: StateV,
    names: Listing,
    i: int,
    u: World,
    inputs: &Inputs,
    after: World,
)
    requires
        tidy(s),
        is_plain_state(s),
        lists_state(names, s),
        0 <= i < names.timed.len(),
        has_part(s, u.state, names.lazy, names.base, names.held, names.timed.take(i)),
        record_replayed(u, ttl_records(names.timed, s.ttl)[i], inputs, after),
    ensures
        has_part(s, after.state, names.lazy, names.base, names.held, names.timed.take(i + 1)),
{
    let timed = names.timed;
    let name = timed[i]@;
    lemma_listed_next(timed, i, name);
    assert(s.ttl.contains_key(name));
    let v = StmtV::SetTtl { name, secs: s.ttl[name] };
    assert(ttl_records(timed, s.ttl)[i] == schema_record(v));
    lemma_schema_read(v);
    let (e, q) = choose|e: Stmt, q: Result<(), ExecErrorV>| #[trigger]
        lens_changed(u, &e, true, inputs, q, after) && e@ == v;
    assert(u.state.has_lens(name)) by {
        assert(s.types.contains_key(name) <==> listed(names.base, name));
        assert(s.derived.contains_key(name) <==> listed(names.lazy, name));
        assert(u.state.types.contains_key(name) <==> listed(names.base, name));
        assert(u.state.derived.contains_key(name) <==> listed(names.lazy, name));
    }
    assert(!u.state.axes.contains_key(name));
    let a = after.state;
    assert forall|m: Seq<char>|
        {
            &&& #[trigger] a.ttl.contains_key(m) <==> listed(timed.take(i + 1), m)
            &&& a.ttl.contains_key(m) ==> a.ttl[m] == s.ttl[m]
        } by {
        lemma_listed_next(timed, i, m);
        assert(u.state.ttl.contains_key(m) <==> listed(timed.take(i), m));
    }
}

/// How much of a list of `n` comes within the first `k`.
spec fn within(k: int, n: nat) -> int {
    if k < 0 {
        0
    } else if k > n {
        n as int
    } else {
        k
    }
}

spec fn part_after(s: StateV, names: Listing, u: StateV, k: int) -> bool {
    let (a, b, c, d) = (names.lazy.len(), names.base.len(), names.held.len(), names.timed.len());
    has_part(
        s,
        u,
        names.lazy.take(within(k, a)),
        names.base.take(within(k - a, b)),
        names.held.take(within(k - a - b, c)),
        names.timed.take(within(k - a - b - c, d)),
    )
}

/// What the first `k` records of a backup make of an empty database.
proof fn lemma_part_after(
    s: StateV,
    names: Listing,
    log: Seq<RecordV<Value>>,
    ws: Seq<World>,
    inputs: &Inputs,
    k: int,
)
    requires
        tidy(s),
        is_plain_state(s),
        lists_state(names, s),
        log == state_records(names, s) + live_records(names.full, s.db.stacks),
        replayed(log, ws, inputs),
        ws[0].state == empty_state(ws[0].state.db.limits.general),
        0 <= k <= log.len(),
    ensures
        part_after(s, names, ws[k].state, k),
    decreases k,
{
    let (a, b, c, d) = (names.lazy.len(), names.base.len(), names.held.len(), names.timed.len());
    let none = Seq::<String>::empty();
    assert(names.lazy.take(0) =~= none && names.base.take(0) =~= none && names.held.take(0) =~= none
        && names.timed.take(0) =~= none);
    assert(names.lazy.take(a as int) =~= names.lazy && names.base.take(b as int) =~= names.base
        && names.held.take(c as int) =~= names.held && names.timed.take(d as int) =~= names.timed);
    if k > 0 {
        let i = k - 1;
        lemma_part_after(s, names, log, ws, inputs, i);
        let (u, after) = (ws[i], ws[k]);
        assert(record_replayed(u, log[i], inputs, after));
        if i < a {
            assert(log[i] == derive_records(names.lazy, s.derived, s.ranges)[i]);
            lemma_derive_taken(s, names.lazy, i, u, inputs, after);
        } else if i < a + b {
            assert(log[i] == type_records(names.base, s.types, s.axes)[i - a]);
            lemma_create_taken(s, names.lazy, names.base, i - a, u, inputs, after);
        } else if i < a + b + c {
            assert(log[i] == stored_records(names.held, s.stored)[i - a - b]);
            lemma_xderive_taken(s, names.lazy, names.base, names.held, i - a - b, u, inputs, after);
        } else if i < a + b + c + d {
            assert(log[i] == ttl_records(names.timed, s.ttl)[i - a - b - c]);
            lemma_ttl_taken(s, names, i - a - b - c, u, inputs, after);
        } else {
            lemma_live_layers(names.full, s.db.stacks);
            assert(log[i] == live_records(names.full, s.db.stacks)[i - a - b - c - d]);
            assert(log[i] is Layer);
        }
    }
}

/// A database restored from a backup has the schema of the database that was backed up.
pub proof fn law_restore_restores_schema(
    s: StateV,
    log: Seq<RecordV<Value>>,
    compact_threshold: usize,
    inputs: &Inputs,
    back: StateV,
)
    requires
        tidy(s),
        is_plain_state(s),
        backs_up(s, log),
        rebuilt(log, compact_threshold, inputs, back),
    ensures
        same_schema(s, back),
{
    let names = choose|names: Listing| #[trigger]
        lists_state(names, s) && log == state_records(names, s) + live_records(
            names.full,
            s.db.stacks,
        );
    let ws = choose|ws: Seq<World>| #[trigger]
        replayed(log, ws, inputs) && ws[0].state == empty_state(compact_threshold) && back
            == (StateV { next_id: back.next_id, ..ws.last().state }) && exists|id: u64| #[trigger]
            is_max_layer_id(back.db.stacks, id) && back.next_id == next_number(id);
    lemma_part_after(s, names, log, ws, inputs, log.len() as int);
    let u = ws.last().state;
    let (a, b, c, d) = (names.lazy.len(), names.base.len(), names.held.len(), names.timed.len());
    assert(names.lazy.take(a as int) =~= names.lazy && names.base.take(b as int) =~= names.base
        && names.held.take(c as int) =~= names.held && names.timed.take(d as int) =~= names.timed);
    assert(has_part(s, u, names.lazy, names.base, names.held, names.timed));
    assert forall|n: Seq<char>| s.types.contains_key(n) <==> u.types.contains_key(n) by {
        assert(s.types.contains_key(n) <==> listed(names.base, n));
    }
    assert forall|n: Seq<char>| s.derived.contains_key(n) <==> u.derived.contains_key(n) by {
        assert(s.derived.contains_key(n) <==> listed(names.lazy, n));
    }
    assert forall|n: Seq<char>| s.ranges.contains_key(n) <==> u.ranges.contains_key(n) by {
        assert(s.derived.contains_key(n) <==> listed(names.lazy, n));
    }
    assert forall|n: Seq<char>| s.axes.contains_key(n) <==> u.axes.contains_key(n) by {
        assert(s.types.contains_key(n) <==> listed(names.base, n));
    }
    assert forall|n: Seq<char>| s.stored.contains_key(n) <==> u.stored.contains_key(n) by {
        assert(s.stored.contains_key(n) <==> listed(names.held, n));
    }
    assert forall|n: Seq<char>| s.ttl.contains_key(n) <==> u.ttl.contains_key(n) by {
        assert(s.ttl.contains_key(n) <==> listed(names.timed, n));
    }
    assert(s.types =~= u.types);
    assert(s.ranges =~= u.ranges);
    assert(s.axes =~= u.axes);
    assert(s.ttl =~= u.ttl);
    assert(s.derived.dom() =~= u.derived.dom());
    assert(s.stored.dom() =~= u.stored.dom());
}

/// A base lens of two databases with one schema answers alike where its layers do.
pub proof fn lemma_base_answers_alike(
    s: StateV,
    back: StateV,
    name: Seq<char>,
    then: &Inputs,
)
    requires
        same_schema(s, back),
        s.types.contains_key(name),
        forall|ts: Seq<i64>, as_of: Option<i64>|
            agree(
                #[trigger] newest(stack_of(s.db.stacks, name), ts, as_of),
                newest(stack_of(back.db.stacks, name), ts, as_of),
            ),
    ensures
        forall|t: i64|
            answers_agree(#[trigger] at_of(s, name, t, then), at_of(back, name, t, then)),
        forall|ts: Seq<i64>, as_of: Option<i64>|
            answers_agree(#[trigger] at_nd_of(s, name, ts, as_of), at_nd_of(back, name, ts, as_of)),
        forall|t: i64, as_of: i64|
            answers_agree(
                #[trigger] at_as_of_of(s, name, t, as_of),
                at_as_of_of(back, name, t, as_of),
            ),
        forall|start: i64, end: i64, r: Result<Seq<Segment<Value>>, ExecErrorV>| #[trigger]
            range_answered(back, name, start, end, None, None, None, then, r) ==> match r {
                Ok(segs) => shows(segs, at_sampler(s, name, then), start, end),
                Err(e) => range_answered(s, name, start, end, None, None, None, then, r),
            },
{
    assert(back.types.contains_key(name));
    assert(s.arity(name) == back.arity(name));
    assert forall|t: i64| answers_agree(
        #[trigger] at_of(s, name, t, then),
        at_of(back, name, t, then),
    ) by {
        let (a, b) = (s.env(then), back.env(then));
        assert(expired(a, name, t) == expired(b, name, t));
        assert(agree(
            newest(stack_of(s.db.stacks, name), seq![t], None),
            newest(stack_of(back.db.stacks, name), seq![t], None),
        ));
    }
    assert forall|start: i64, end: i64, r: Result<Seq<Segment<Value>>, ExecErrorV>| #[trigger]
        range_answered(back, name, start, end, None, None, None, then, r) implies match r {
        Ok(segs) => shows(segs, at_sampler(s, name, then), start, end),
        Err(e) => range_answered(s, name, start, end, None, None, None, then, r),
    } by {
        if let Ok(segs) = r {
            if back.window_start(name, start, then) < end {
                lemma_base_range_shows(back, name, start, end, then, segs);
            }
            let (f, g) = (at_sampler(s, name, then), at_sampler(back, name, then));
            assert forall|t: i64| start <= t < end implies (#[trigger] f(t)) is Ok && match f(
                t,
            )->Ok_0 {
                Some(v) => exists|i: int| #[trigger]
                    in_segment(segs, i, t) && agree(Some(segs[i].2), Some(v)),
                None => forall|i: int| !#[trigger] in_segment(segs, i, t),
            } by {
                assert(g(t) is Ok);
                assert(answers_agree(at_of(s, name, t, then), at_of(back, name, t, then)));
                if let Some(v) = f(t)->Ok_0 {
                    let u = g(t)->Ok_0->0;
                    let i = choose|i: int| #[trigger]
                        in_segment(segs, i, t) && agree(Some(segs[i].2), Some(u));
                    lemma_agree_chain(Some(segs[i].2), Some(u), Some(v));
                }
            }
        }
    }
}

/// A base lens of a database restored from a backup, and a materialised lens is one, answers as
/// it did in the database that was backed up: `AT LENS` with one coordinate or several, `AS OF`
/// and `RANGE LENS`.
pub proof fn law_restore_answers_alike(
    s: StateV,
    log: Seq<RecordV<Value>>,
    compact_threshold: usize,
    inputs: &Inputs,
    back: StateV,
    name: Seq<char>,
    then: &Inputs,
)
    requires
        tidy(s),
        is_plain_state(s),
        backs_up(s, log),
        rebuilt(log, compact_threshold, inputs, back),
        s.types.contains_key(name),
    ensures
        forall|t: i64|
            answers_agree(#[trigger] at_of(s, name, t, then), at_of(back, name, t, then)),
        forall|ts: Seq<i64>, as_of: Option<i64>|
            answers_agree(#[trigger] at_nd_of(s, name, ts, as_of), at_nd_of(back, name, ts, as_of)),
        forall|t: i64, as_of: i64|
            answers_agree(
                #[trigger] at_as_of_of(s, name, t, as_of),
                at_as_of_of(back, name, t, as_of),
            ),
        forall|start: i64, end: i64, r: Result<Seq<Segment<Value>>, ExecErrorV>| #[trigger]
            range_answered(back, name, start, end, None, None, None, then, r) ==> match r {
                Ok(segs) => shows(segs, at_sampler(s, name, then), start, end),
                Err(e) => range_answered(s, name, start, end, None, None, None, then, r),
            },
{
    law_restore_restores_schema(s, log, compact_threshold, inputs, back);
    assert forall|ts: Seq<i64>, as_of: Option<i64>| agree(
        #[trigger] newest(stack_of(s.db.stacks, name), ts, as_of),
        newest(stack_of(back.db.stacks, name), ts, as_of),
    ) by {
        law_restore_keeps_layers(s, log, compact_threshold, inputs, back, name, ts, as_of);
    }
    lemma_base_answers_alike(s, back, name, then);
}

/// A new database is tidy and plain.
pub proof fn law_new_database_is_tidy(compact_threshold: usize)
    ensures
        tidy(empty_state(compact_threshold)),
        is_plain_state(empty_state(compact_threshold)),
{
}

/// Every statement that was parsed leaves a database tidy and plain.
pub proof fn law_statements_keep_tidy(
    query: Seq<char>,
    stmt: &Stmt,
    live: World,
    inputs: &Inputs,
    r: Result<(), ExecErrorV>,
    after: World,
)
    requires
        statement(query) is Some,
        stmt@ == (statement(query)->0).0,
        tidy(live.state),
        is_plain_state(live.state),
        lens_changed(live, stmt, false, inputs, r, after),
    ensures
        tidy(after.state),
        is_plain_state(after.state),
{
    lemma_statement_plain(blanks(query));
    let (s, a) = (live.state, after.state);
    match *stmt {
        Stmt::Append { name, taus } => {
            if let Ok(rows) = literal_rows(taus@, &inputs.floats) {
                lemma_rows_written(live, name@, rows, inputs, r, after);
            }
        },
        Stmt::BatchAppend { name, taus } => {
            if let Ok(rows) = literal_rows(taus@, &inputs.floats) {
                lemma_rows_written(live, name@, rows, inputs, r, after);
            }
        },
        Stmt::AppendNd { name, taus } => {
            lemma_boxes_written(live, name@, taus@, inputs, r, after);
        },
        Stmt::Copy { name, path } => {
            lemma_file_copied(live, name@, path@, inputs, r, after);
        },
        Stmt::Xderive { name, expr, range } => {
            if r is Ok {
                lemma_xderive_keeps_tidy(live, name@, &expr, range, inputs, r, after);
            }
        },
        Stmt::Derive { name, expr, range } => {
            if r is Ok {
                let def = Arc::new(expr);
                if reaches(s.derived, &expr, name@) {
                    lemma_more_derivations(s.derived, definitions(s), &expr, name@);
                }
                law_checked_derivation_stays_acyclic(s.derived, name@, def);
                assert(a.derived == s.derived.insert(name@, def));
                assert(a.derived.dom() =~= s.derived.dom().insert(name@));
                assert(!s.stored.contains_key(name@));
                law_checked_derivation_stays_acyclic(definitions(s), name@, def);
                assert(definitions(a) =~= definitions(s).insert(name@, def));
            }
        },
        Stmt::Drop { name } => {
            if r is Ok {
                law_dropped_derivation_stays_acyclic(s.derived, name@);
                assert(a.derived.dom() =~= s.derived.dom().remove(name@));
                assert(a.stored.dom() =~= s.stored.dom().remove(name@));
                law_dropped_derivation_stays_acyclic(definitions(s), name@);
                assert(definitions(a) =~= definitions(s).remove(name@));
            }
        },
        _ => {},
    }
}

proof fn lemma_xderive_keeps_tidy(
    live: World,
    name: Seq<char>,
    expr: &Expr,
    range: Option<(i64, i64)>,
    inputs: &Inputs,
    r: Result<(), ExecErrorV>,
    after: World,
)
    requires
        is_plain_schema(StmtV::Xderive { name, expr: expr@, range }),
        tidy(live.state),
        is_plain_state(live.state),
        r is Ok,
        materialised_lens(live, name, expr, range, false, inputs, r, after),
    ensures
        tidy(after.state),
        is_plain_state(after.state),
{
    let s = live.state;
    let segs = materialised(s.env(inputs), expr, range, s.fuel())->Ok_0;
    let tried = choose|tried: World| #[trigger]
        materialising(live, name, expr, range, segs, inputs, r, tried) && after == after_trial(
            live,
            r,
            tried,
        );
    let ty = segments_type(segs);
    let one = note(live, schema_record(StmtV::Create { name, ty, axes: Seq::empty() })).1;
    let two = note(one, schema_record(StmtV::Xderive { name, expr: expr@, range })).1;
    let whole = World {
        state: StateV {
            types: two.state.types.insert(name, ty),
            stored: two.state.stored.insert(name, DefV { expr: *expr, range }),
            ..two.state
        },
        ..two
    };
    if segs.len() > 0 {
        lemma_laid(whole, name, row_boxes(segs), inputs.now_ms, r, tried);
    }
    assert(equal_schema(whole.state, after.state));
    let def = Arc::new(*expr);
    assert(whole.state.stored.dom() =~= s.stored.dom().insert(name));
    law_checked_derivation_stays_acyclic(definitions(s), name, def);
    assert(definitions(whole.state) =~= definitions(s).insert(name, def));
    assert(definitions(after.state) == definitions(whole.state));
}


} // verus!
