//! User-defined functions: what is registered, and when each one is to run.
//!
//! Compiling and running a function is the host's work. Here it is decided which functions
//! run, and what their outcomes mean.

use crate::ast::{opt_text, Cap, TriggerKind, TriggerKindV};
use crate::clock::{add_clamped, clamp, thousandfold_clamped};
use crate::copy::Row;
use crate::text::{owned, same_text};
use vstd::prelude::*;

verus! {

/// A registered function.
#[derive(Debug)]
pub struct FunctionEntry {
    pub name: String,
    pub source: String,
    pub kind: TriggerKind,
    pub caps: Cap,
    /// When a scheduled function runs next, in milliseconds.
    pub next_fire_ms: Option<i64>,
}

#[verifier::ext_equal]
pub struct FunctionV {
    pub name: Seq<char>,
    pub source: Seq<char>,
    pub kind: TriggerKindV,
    pub caps: Cap,
    pub next: Option<i64>,
}

impl View for FunctionEntry {
    type V = FunctionV;

    open spec fn view(&self) -> FunctionV {
        FunctionV {
            name: self.name@,
            source: self.source@,
            kind: self.kind@,
            caps: self.caps,
            next: self.next_fire_ms,
        }
    }
}

/// The registered functions, in the order in which they were registered.
#[derive(Debug)]
pub struct FunctionTable {
    funcs: Vec<FunctionEntry>,
}

impl View for FunctionTable {
    type V = Seq<FunctionV>;

    closed spec fn view(&self) -> Seq<FunctionV> {
        self.funcs@.map_values(|f: FunctionEntry| f@)
    }
}

/// No two functions share a name.
pub open spec fn names_apart(fs: Seq<FunctionV>) -> bool {
    forall|i: int, j: int|
        #![trigger fs[i], fs[j]]
        0 <= i < j < fs.len() ==> fs[i].name != fs[j].name
}

pub open spec fn has_function(fs: Seq<FunctionV>, name: Seq<char>) -> bool {
    exists|i: int| 0 <= i < fs.len() && (#[trigger] fs[i]).name == name
}

/// Where the function with a name stands.
pub open spec fn place_of(fs: Seq<FunctionV>, name: Seq<char>) -> int {
    choose|i: int| 0 <= i < fs.len() && (#[trigger] fs[i]).name == name
}

/// The functions without the one with a name.
pub open spec fn without_function(fs: Seq<FunctionV>, name: Seq<char>) -> Seq<FunctionV> {
    if has_function(fs, name) {
        fs.remove(place_of(fs, name))
    } else {
        fs
    }
}

/// How many milliseconds lie between two runs: at least one.
pub open spec fn period_of(every_secs: i64) -> i64 {
    let ms = clamp(every_secs * 1000);
    if ms >= 1 {
        ms
    } else {
        1
    }
}

/// When a function first runs on its own.
pub open spec fn first_fire(kind: TriggerKindV, now_ms: i64) -> Option<i64> {
    match kind {
        TriggerKindV::Cron { every_secs } => Some(clamp(now_ms + period_of(every_secs))),
        _ => None,
    }
}

/// The functions after one has been registered: it goes last, in place of one with its
/// name. Where it does not compile, the one with its name is gone all the same.
pub open spec fn registered(fs: Seq<FunctionV>, f: FunctionV, compiles: bool) -> Seq<FunctionV> {
    let rest = without_function(fs, f.name);
    if compiles {
        rest.push(f)
    } else {
        rest
    }
}

/// The function is to run at the time.
pub open spec fn is_due(f: FunctionV, now_ms: i64) -> bool {
    f.kind is Cron && (f.next matches Some(next) ==> next <= now_ms)
}

/// The function runs after a write to the lens.
pub open spec fn watches(f: FunctionV, lens: Seq<char>) -> bool {
    f.kind matches TriggerKindV::OnWrite { lens: l } && (l matches Some(name) ==> name == lens)
}

/// The function once it has run at a time: it is put off by one period, however long it was
/// overdue.
pub open spec fn put_off(f: FunctionV, now_ms: i64) -> FunctionV {
    match f.kind {
        TriggerKindV::Cron { every_secs } => FunctionV {
            next: match f.next {
                Some(next) => if next <= now_ms {
                    Some(clamp(now_ms + period_of(every_secs)))
                } else {
                    Some(next)
                },
                None => Some(clamp(now_ms + period_of(every_secs))),
            },
            ..f
        },
        _ => f,
    }
}

/// The places of the functions for which a condition holds, in order.
pub open spec fn places(fs: Seq<FunctionV>, p: spec_fn(FunctionV) -> bool, out: Seq<usize>) -> bool {
    &&& forall|i: int, j: int|
        #![trigger out[i], out[j]]
        0 <= i < j < out.len() ==> out[i] < out[j]
    &&& forall|k: int| 0 <= k < out.len() ==> (#[trigger] out[k]) < fs.len() && p(fs[out[k] as int])
    &&& forall|i: int|
        0 <= i < fs.len() && p(#[trigger] fs[i]) ==> exists|k: int|
            0 <= k < out.len() && #[trigger] out[k] == i
}

/// A scheduled function that has run is not due again before its period is over, and is due
/// once it is or the last moment of all has come.
pub proof fn law_runs_once_per_period(f: FunctionV, now_ms: i64, later: i64)
    requires
        f.kind is Cron,
        is_due(f, now_ms),
    ensures
        is_due(put_off(f, now_ms), later) <==> later >= clamp(
            now_ms + period_of(f.kind->every_secs),
        ),
        now_ms < i64::MAX ==> !is_due(put_off(f, now_ms), now_ms),
{
}

/// A function is due for the first time one period after it was registered, or at the last
/// moment of all.
pub proof fn law_first_run_after_one_period(f: FunctionV, every_secs: i64, now_ms: i64, t: i64)
    requires
        f.kind == (TriggerKindV::Cron { every_secs }),
        f.next == first_fire(f.kind, now_ms),
    ensures
        is_due(f, t) <==> t >= clamp(now_ms + period_of(every_secs)),
{
}

fn period_ms(every_secs: i64) -> (r: i64)
    ensures
        r == period_of(every_secs),
{
    let ms: i64 = thousandfold_clamped(every_secs);
    if ms >= 1 {
        ms
    } else {
        1
    }
}

fn same_opt_text(a: &Option<String>, b: &str) -> (r: bool)
    ensures
        r == (opt_text(*a) matches Some(name) ==> name == b@),
{
    match a {
        Some(name) => same_text(name.as_str(), b),
        None => true,
    }
}

impl Default for FunctionTable {
    fn default() -> (r: Self)
        ensures
            r@ == Seq::<FunctionV>::empty(),
            names_apart(r@),
    {
        FunctionTable::new()
    }
}

impl FunctionTable {
    pub fn new() -> (r: Self)
        ensures
            r@ == Seq::<FunctionV>::empty(),
            names_apart(r@),
    {
        let r = FunctionTable { funcs: Vec::new() };
        assert(r@ =~= Seq::empty());
        r
    }

    /// Where the function with a name stands.
    pub fn position(&self, name: &str) -> (r: Option<usize>)
        requires
            names_apart(self@),
        ensures
            match r {
                Some(i) => i < self@.len() && self@[i as int].name == name@ && has_function(
                    self@,
                    name@,
                ) && place_of(self@, name@) == i,
                None => !has_function(self@, name@),
            },
    {
        let mut i: usize = 0;
        while i < self.funcs.len()
            invariant
                i <= self.funcs@.len(),
                names_apart(self@),
                forall|k: int| 0 <= k < i ==> (#[trigger] self@[k]).name != name@,
            decreases self.funcs@.len() - i,
        {
            if same_text(self.funcs[i].name.as_str(), name) {
                proof {
                    assert(self@[i as int].name == name@);
                    let p = place_of(self@, name@);
                    assert(self@[p].name == name@);
                }
                return Some(i);
            }
            assert(self@[i as int].name != name@);
            i = i + 1;
        }
        None
    }

    /// Registers a function that the host has compiled or failed to compile, in place of
    /// one with its name.
    pub fn register(
        &mut self,
        name: &str,
        kind: TriggerKind,
        caps: Cap,
        body: &str,
        now_ms: i64,
        compiled: Result<(), String>,
    ) -> (r: Result<(), String>)
        requires
            names_apart(old(self)@),
        ensures
            names_apart(final(self)@),
            r is Ok <==> compiled is Ok,
            r matches Err(e) ==> compiled == Err::<(), String>(e),
            final(self)@ == registered(
                old(self)@,
                FunctionV {
                    name: name@,
                    source: body@,
                    kind: kind@,
                    caps,
                    next: first_fire(kind@, now_ms),
                },
                compiled is Ok,
            ),
    {
        let _ = self.drop_fn(name);
        let ghost rest = self@;
        proof {
            assert(!has_function(rest, name@)) by {
                if has_function(rest, name@) {
                    let i = choose|i: int| 0 <= i < rest.len() && (#[trigger] rest[i]).name == name@;
                    assert(rest[i].name == name@);
                }
            }
        }
        if let Err(e) = compiled {
            return Err(e);
        }
        let next_fire_ms: Option<i64> = match &kind {
            TriggerKind::Cron { every_secs } => Some(
                add_clamped(now_ms, period_ms(*every_secs)),
            ),
            _ => None,
        };
        let entry = FunctionEntry {
            name: owned(name),
            source: owned(body),
            kind,
            caps,
            next_fire_ms,
        };
        let ghost before = self.funcs@;
        self.funcs.push(entry);
        proof {
            assert(self@ =~= rest.push(entry@));
            assert forall|i: int, j: int|
                #![trigger self@[i], self@[j]]
                0 <= i < j < self@.len() implies self@[i].name != self@[j].name by {
                if j == rest.len() {
                    assert(rest[i].name != name@);
                } else {
                    assert(rest[i].name != rest[j].name);
                }
            }
        }
        Ok(())
    }

    /// Removes a function; tells whether there was one.
    pub fn drop_fn(&mut self, name: &str) -> (r: bool)
        requires
            names_apart(old(self)@),
        ensures
            names_apart(final(self)@),
            final(self)@ == without_function(old(self)@, name@),
            r == has_function(old(self)@, name@),
            !has_function(final(self)@, name@),
    {
        match self.position(name) {
            Some(i) => {
                let ghost before = self@;
                let _ = self.funcs.remove(i);
                proof {
                    assert(self@ =~= before.remove(i as int));
                    assert forall|p: int, q: int|
                        #![trigger self@[p], self@[q]]
                        0 <= p < q < self@.len() implies self@[p].name != self@[q].name by {
                        let p0 = if p < i {
                            p
                        } else {
                            p + 1
                        };
                        let q0 = if q < i {
                            q
                        } else {
                            q + 1
                        };
                        assert(before[p0].name != before[q0].name);
                    }
                    assert forall|p: int| 0 <= p < self@.len() implies (#[trigger] self@[p]).name
                        != name@ by {
                        if p < i {
                            assert(before[p].name != before[i as int].name);
                        } else {
                            assert(before[i as int].name != before[p + 1].name);
                        }
                    }
                }
                true
            },
            None => false,
        }
    }

    /// The names of the functions, in the order in which they were registered.
    pub fn list(&self) -> (r: Vec<String>)
        ensures
            r@.map_values(|s: String| s@) == self@.map_values(|f: FunctionV| f.name),
    {
        let mut out: Vec<String> = Vec::new();
        let mut i: usize = 0;
        while i < self.funcs.len()
            invariant
                i <= self.funcs@.len(),
                out@.len() == i,
                forall|k: int| 0 <= k < i ==> (#[trigger] out@[k])@ == self@[k].name,
            decreases self.funcs@.len() - i,
        {
            out.push(self.funcs[i].name.clone());
            i = i + 1;
        }
        assert(out@.map_values(|s: String| s@) =~= self@.map_values(|f: FunctionV| f.name));
        out
    }

    /// Whether a function with the name is registered.
    pub fn has(&self, name: &str) -> (r: bool)
        requires
            names_apart(self@),
        ensures
            r == has_function(self@, name@),
    {
        self.position(name).is_some()
    }

    /// The function with the name.
    pub fn get(&self, name: &str) -> (r: Option<&FunctionEntry>)
        requires
            names_apart(self@),
        ensures
            r is Some <==> has_function(self@, name@),
            r matches Some(f) ==> f@ == self@[place_of(self@, name@)] && f@.name == name@,
    {
        match self.position(name) {
            Some(i) => Some(&self.funcs[i]),
            None => None,
        }
    }

    /// The source of the function with the name.
    pub fn source(&self, name: &str) -> (r: Option<&str>)
        requires
            names_apart(self@),
        ensures
            r is Some <==> has_function(self@, name@),
            r matches Some(s) ==> s@ == self@[place_of(self@, name@)].source,
    {
        match self.get(name) {
            Some(f) => Some(f.source.as_str()),
            None => None,
        }
    }

    /// The function at a place.
    pub fn at(&self, i: usize) -> (r: Option<&FunctionEntry>)
        ensures
            r is Some <==> i < self@.len(),
            r matches Some(f) ==> f@ == self@[i as int],
    {
        if i < self.funcs.len() {
            Some(&self.funcs[i])
        } else {
            None
        }
    }

    /// The functions that run after a write to a lens.
    pub fn on_write(&self, lens: &str) -> (r: Vec<usize>)
        ensures
            places(self@, |f: FunctionV| watches(f, lens@), r@),
    {
        let mut out: Vec<usize> = Vec::new();
        let ghost p = |f: FunctionV| watches(f, lens@);
        let mut i: usize = 0;
        while i < self.funcs.len()
            invariant
                i <= self.funcs@.len(),
                p == (|f: FunctionV| watches(f, lens@)),
                chosen(self@, p, out@, i as int),
            decreases self.funcs@.len() - i,
        {
            let wanted: bool = match &self.funcs[i].kind {
                TriggerKind::OnWrite { lens: l } => same_opt_text(l, lens),
                _ => false,
            };
            let ghost before = out@;
            assert(wanted == p(self@[i as int]));
            if wanted {
                out.push(i);
            }
            proof {
                lemma_chosen_next(self@, p, before, i as int, out@);
            }
            i = i + 1;
        }
        out
    }

    /// The functions that are asked before a statement is executed.
    pub fn permission_hooks(&self) -> (r: Vec<usize>)
        ensures
            places(self@, |f: FunctionV| f.kind is OnPermission, r@),
    {
        let mut out: Vec<usize> = Vec::new();
        let ghost p = |f: FunctionV| f.kind is OnPermission;
        let mut i: usize = 0;
        while i < self.funcs.len()
            invariant
                i <= self.funcs@.len(),
                p == (|f: FunctionV| f.kind is OnPermission),
                chosen(self@, p, out@, i as int),
            decreases self.funcs@.len() - i,
        {
            let wanted: bool = match &self.funcs[i].kind {
                TriggerKind::OnPermission => true,
                _ => false,
            };
            let ghost before = out@;
            assert(wanted == p(self@[i as int]));
            if wanted {
                out.push(i);
            }
            proof {
                lemma_chosen_next(self@, p, before, i as int, out@);
            }
            i = i + 1;
        }
        out
    }

    /// The scheduled functions that are to run at a time.
    pub fn due(&self, now_ms: i64) -> (r: Vec<usize>)
        ensures
            places(self@, |f: FunctionV| is_due(f, now_ms), r@),
    {
        let mut out: Vec<usize> = Vec::new();
        let ghost p = |f: FunctionV| is_due(f, now_ms);
        let mut i: usize = 0;
        while i < self.funcs.len()
            invariant
                i <= self.funcs@.len(),
                p == (|f: FunctionV| is_due(f, now_ms)),
                chosen(self@, p, out@, i as int),
            decreases self.funcs@.len() - i,
        {
            let wanted: bool = match (&self.funcs[i].kind, self.funcs[i].next_fire_ms) {
                (TriggerKind::Cron { .. }, Some(next)) => next <= now_ms,
                (TriggerKind::Cron { .. }, None) => true,
                _ => false,
            };
            let ghost before = out@;
            assert(wanted == p(self@[i as int]));
            if wanted {
                out.push(i);
            }
            proof {
                lemma_chosen_next(self@, p, before, i as int, out@);
            }
            i = i + 1;
        }
        out
    }

    /// Puts a scheduled function off once it has run.
    pub fn after_run(&mut self, i: usize, now_ms: i64)
        requires
            i < old(self)@.len(),
            names_apart(old(self)@),
        ensures
            final(self)@ == old(self)@.update(i as int, put_off(old(self)@[i as int], now_ms)),
            names_apart(final(self)@),
    {
        let ghost before = self@;
        let period: Option<i64> = match &self.funcs[i].kind {
            TriggerKind::Cron { every_secs } => Some(period_ms(*every_secs)),
            _ => None,
        };
        if let Some(ms) = period {
            let next: i64 = match self.funcs[i].next_fire_ms {
                Some(next) => if next <= now_ms {
                    add_clamped(now_ms, ms)
                } else {
                    next
                },
                None => add_clamped(now_ms, ms),
            };
            self.funcs[i].next_fire_ms = Some(next);
        }
        proof {
            let after = before.update(i as int, put_off(before[i as int], now_ms));
            assert(self@ =~= after);
            assert forall|p: int, q: int|
                #![trigger self@[p], self@[q]]
                0 <= p < q < self@.len() implies self@[p].name != self@[q].name by {
                assert(before[p].name != before[q].name);
            }
        }
    }
}

/// The places among the first `k` functions for which a condition holds.
spec fn chosen(fs: Seq<FunctionV>, p: spec_fn(FunctionV) -> bool, out: Seq<usize>, k: int) -> bool {
    &&& 0 <= k <= fs.len()
    &&& forall|i: int, j: int|
        #![trigger out[i], out[j]]
        0 <= i < j < out.len() ==> out[i] < out[j]
    &&& forall|i: int| 0 <= i < out.len() ==> (#[trigger] out[i]) < k && p(fs[out[i] as int])
    &&& forall|i: int|
        0 <= i < k && p(#[trigger] fs[i]) ==> exists|j: int|
            0 <= j < out.len() && #[trigger] out[j] == i
}

proof fn lemma_chosen_next(
    fs: Seq<FunctionV>,
    p: spec_fn(FunctionV) -> bool,
    before: Seq<usize>,
    k: int,
    after: Seq<usize>,
)
    requires
        chosen(fs, p, before, k),
        k < fs.len(),
        k <= usize::MAX,
        after == (if p(fs[k]) {
            before.push(k as usize)
        } else {
            before
        }),
    ensures
        chosen(fs, p, after, k + 1),
{
    assert forall|i: int| 0 <= i < k + 1 && p(#[trigger] fs[i]) implies exists|j: int|
        0 <= j < after.len() && #[trigger] after[j] == i by {
        if i < k {
            let j = choose|j: int| 0 <= j < before.len() && #[trigger] before[j] == i;
            assert(after[j] == i);
        } else {
            assert(after[before.len() as int] == i);
        }
    }
}

/// The answer of the permission hooks.
#[derive(Debug, Clone, PartialEq, Eq)]
pub enum PermissionVerdict {
    Allow,
    Deny(String),
}

/// What one permission hook returned.
#[derive(Debug, Clone, Copy, PartialEq, Eq, Structural)]
pub enum HookReturn {
    Nothing,
    Bool(bool),
    /// Any other value.
    Other,
    /// The hook failed.
    Failed,
}

/// Some hook returned `false`.
pub open spec fn some_refusal(answers: Seq<HookReturn>) -> bool {
    exists|i: int| 0 <= i < answers.len() && #[trigger] answers[i] == HookReturn::Bool(false)
}

/// Whether a statement may go on, given what the hooks returned. Only `false` denies; a
/// hook that fails does not.
pub fn judge(answers: &Vec<HookReturn>) -> (r: PermissionVerdict)
    ensures
        r is Deny <==> some_refusal(answers@),
        r matches PermissionVerdict::Deny(why) ==> why@ == "denied by permission hook"@,
{
    let mut i: usize = 0;
    while i < answers.len()
        invariant
            i <= answers@.len(),
            forall|k: int| 0 <= k < i ==> #[trigger] answers@[k] != HookReturn::Bool(false),
        decreases answers@.len() - i,
    {
        if let HookReturn::Bool(answer) = answers[i] {
            if !answer {
                assert(answers@[i as int] == HookReturn::Bool(false));
                return PermissionVerdict::Deny(owned("denied by permission hook"));
            }
        }
        i = i + 1;
    }
    PermissionVerdict::Allow
}

/// The smallest window that holds all rows; none without rows.
pub open spec fn spans_rows(rows: Seq<Row>, span: Option<(i64, i64)>) -> bool {
    match span {
        None => rows.len() == 0,
        Some((lo, hi)) => {
            &&& forall|i: int| 0 <= i < rows.len() ==> lo <= (#[trigger] rows[i]).0 && rows[i].1 <= hi
            &&& exists|i: int| 0 <= i < rows.len() && (#[trigger] rows[i]).0 == lo
            &&& exists|i: int| 0 <= i < rows.len() && (#[trigger] rows[i]).1 == hi
        },
    }
}

/// The smallest window that holds all rows.
pub fn write_span(rows: &Vec<Row>) -> (r: Option<(i64, i64)>)
    ensures
        spans_rows(rows@, r),
{
    if rows.len() == 0 {
        return None;
    }
    let mut lo: i64 = rows[0].0;
    let mut hi: i64 = rows[0].1;
    let mut i: usize = 1;
    while i < rows.len()
        invariant
            1 <= i <= rows@.len(),
            forall|k: int| 0 <= k < i ==> lo <= (#[trigger] rows@[k]).0 && rows@[k].1 <= hi,
            exists|k: int| 0 <= k < rows@.len() && (#[trigger] rows@[k]).0 == lo,
            exists|k: int| 0 <= k < rows@.len() && (#[trigger] rows@[k]).1 == hi,
        decreases rows@.len() - i,
    {
        let (s, e): (i64, i64) = (rows[i].0, rows[i].1);
        assert(rows@[i as int].0 == s && rows@[i as int].1 == e);
        if s < lo {
            lo = s;
        }
        if e > hi {
            hi = e;
        }
        i = i + 1;
    }
    Some((lo, hi))
}

} // verus!
