//! The lenses of a database: their declarations and derivations.

use crate::ast::Expr;
use crate::names::{in_name_order, listed, NameMap};
use crate::value::Type;
use std::sync::Arc;
use vstd::prelude::*;

verus! {

/// The definition of a materialised lens: what it computes, over which window, and which
/// lenses it reads.
#[derive(Debug)]
pub struct XderiveDef {
    pub expr: Expr,
    pub range: Option<(i64, i64)>,
}

/// The declared and derived lenses of a database.
#[derive(Debug)]
pub struct Catalog {
    /// The type of every base lens; materialised lenses are base lenses too.
    pub types: NameMap<Type>,
    pub derived: NameMap<Arc<Expr>>,
    /// The windows of derived lenses that have one.
    pub ranges: NameMap<(i64, i64)>,
    pub stored: NameMap<Arc<XderiveDef>>,
    /// Time to live in seconds, of lenses that have one.
    pub ttl: NameMap<i64>,
    /// The axis names of lenses with more than one axis.
    pub axes: NameMap<Arc<Vec<String>>>,
}

impl Catalog {
    pub fn new() -> (r: Self)
        ensures
            r.types@ == Map::<Seq<char>, Type>::empty(),
            r.derived@ == Map::<Seq<char>, Arc<Expr>>::empty(),
            r.ranges@ == Map::<Seq<char>, (i64, i64)>::empty(),
            r.stored@ == Map::<Seq<char>, Arc<XderiveDef>>::empty(),
            r.ttl@ == Map::<Seq<char>, i64>::empty(),
            r.axes@ == Map::<Seq<char>, Arc<Vec<String>>>::empty(),
    {
        Catalog {
            types: NameMap::new(),
            derived: NameMap::new(),
            ranges: NameMap::new(),
            stored: NameMap::new(),
            ttl: NameMap::new(),
            axes: NameMap::new(),
        }
    }

    /// The two catalogs declare the same.
    pub open spec fn same_as(&self, other: &Catalog) -> bool {
        &&& self.types@ == other.types@
        &&& self.derived@ == other.derived@
        &&& self.ranges@ == other.ranges@
        &&& self.stored@ == other.stored@
        &&& self.ttl@ == other.ttl@
        &&& self.axes@ == other.axes@
    }

    pub fn dup(&self) -> (r: Self)
        ensures
            r.same_as(self),
    {
        Catalog {
            types: self.types.dup(),
            derived: self.derived.dup(),
            ranges: self.ranges.dup(),
            stored: self.stored.dup(),
            ttl: self.ttl.dup(),
            axes: self.axes.dup(),
        }
    }
}

/// The expression refers to the lens.
pub open spec fn mentions(e: &Expr, lens: Seq<char>) -> bool
    decreases e,
{
    match *e {
        Expr::Lit(_) => false,
        Expr::Ident(name) => name@ == lens,
        Expr::Unary { expr, .. } => mentions(&expr, lens),
        Expr::Binary { lhs, rhs, .. } => mentions(&lhs, lens) || mentions(&rhs, lens),
        Expr::Agg { lens: name, .. } => name@ == lens,
    }
}

pub type Derivations = Map<Seq<char>, Arc<Expr>>;

/// Following at most `k` derivations, the expression leads to the lens.
pub open spec fn reaches_in(derived: Derivations, e: &Expr, lens: Seq<char>, k: nat) -> bool
    decreases k,
{
    ||| mentions(e, lens)
    ||| k > 0 && exists|via: Seq<char>| #[trigger]
        mentions(e, via) && derived.contains_key(via) && reaches_in(
            derived,
            &*derived[via],
            lens,
            (k - 1) as nat,
        )
}

/// The expression leads to the lens, directly or through derived lenses.
pub open spec fn reaches(derived: Derivations, e: &Expr, lens: Seq<char>) -> bool {
    exists|k: nat| reaches_in(derived, e, lens, k)
}

/// No derived lens leads to itself.
pub open spec fn acyclic(derived: Derivations) -> bool {
    forall|lens: Seq<char>| #[trigger]
        derived.contains_key(lens) ==> !reaches(derived, &*derived[lens], lens)
}

proof fn lemma_reaches_more(derived: Derivations, e: &Expr, lens: Seq<char>, k: nat, m: nat)
    requires
        reaches_in(derived, e, lens, k),
        k <= m,
    ensures
        reaches_in(derived, e, lens, m),
    decreases k,
{
    if !mentions(e, lens) {
        let via = choose|via: Seq<char>| #[trigger]
            mentions(e, via) && derived.contains_key(via) && reaches_in(
                derived,
                &*derived[via],
                lens,
                (k - 1) as nat,
            );
        lemma_reaches_more(derived, &*derived[via], lens, (k - 1) as nat, (m - 1) as nat);
    }
}

/// What leads to a derived lens leads to whatever that one leads to.
pub proof fn lemma_reaches_through(
    derived: Derivations,
    e: &Expr,
    via: Seq<char>,
    lens: Seq<char>,
    k: nat,
    m: nat,
)
    requires
        reaches_in(derived, e, via, k),
        derived.contains_key(via),
        reaches_in(derived, &*derived[via], lens, m),
    ensures
        reaches_in(derived, e, lens, k + m + 1),
    decreases k,
{
    if mentions(e, via) {
        lemma_reaches_more(derived, &*derived[via], lens, m, k + m);
    } else {
        let next = choose|next: Seq<char>| #[trigger]
            mentions(e, next) && derived.contains_key(next) && reaches_in(
                derived,
                &*derived[next],
                via,
                (k - 1) as nat,
            );
        lemma_reaches_through(derived, &*derived[next], via, lens, (k - 1) as nat, m);
    }
}

/// More derivations lead at least as far.
pub proof fn lemma_more_derivations(few: Derivations, all: Derivations, e: &Expr, lens: Seq<char>)
    requires
        forall|n: Seq<char>| #[trigger]
            few.contains_key(n) ==> all.contains_key(n) && few[n] == all[n],
        reaches(few, e, lens),
    ensures
        reaches(all, e, lens),
{
    let k = choose|k: nat| reaches_in(few, e, lens, k);
    lemma_more_derivations_in(few, all, e, lens, k);
}

proof fn lemma_more_derivations_in(
    few: Derivations,
    all: Derivations,
    e: &Expr,
    lens: Seq<char>,
    k: nat,
)
    requires
        forall|n: Seq<char>| #[trigger]
            few.contains_key(n) ==> all.contains_key(n) && few[n] == all[n],
        reaches_in(few, e, lens, k),
    ensures
        reaches_in(all, e, lens, k),
    decreases k,
{
    if !mentions(e, lens) {
        let via = choose|via: Seq<char>| #[trigger]
            mentions(e, via) && few.contains_key(via) && reaches_in(
                few,
                &*few[via],
                lens,
                (k - 1) as nat,
            );
        lemma_more_derivations_in(few, all, &*few[via], lens, (k - 1) as nat);
    }
}

/// In the derivations with `target` added, a walk either never needs the new derivation,
/// or leads to `target` without it and goes on from there.
proof fn lemma_new_derivation(
    derived: Derivations,
    target: Seq<char>,
    def: Arc<Expr>,
    e: &Expr,
    lens: Seq<char>,
    k: nat,
)
    requires
        !derived.contains_key(target),
        reaches_in(derived.insert(target, def), e, lens, k),
    ensures
        reaches_in(derived, e, lens, k) || (reaches_in(derived, e, target, k) && k > 0
            && exists|m: nat| m < k && reaches_in(derived.insert(target, def), &*def, lens, m)),
    decreases k,
{
    let after = derived.insert(target, def);
    if !mentions(e, lens) {
        let via = choose|via: Seq<char>| #[trigger]
            mentions(e, via) && after.contains_key(via) && reaches_in(
                after,
                &*after[via],
                lens,
                (k - 1) as nat,
            );
        if via == target {
            assert(reaches_in(after, &*def, lens, (k - 1) as nat));
        } else {
            lemma_new_derivation(derived, target, def, &*derived[via], lens, (k - 1) as nat);
            assert(derived.contains_key(via));
        }
    }
}

proof fn lemma_target_stays_apart(
    derived: Derivations,
    target: Seq<char>,
    def: Arc<Expr>,
    lens: Seq<char>,
    m: nat,
)
    requires
        !derived.contains_key(target),
        !reaches(derived, &*def, target),
        reaches_in(derived.insert(target, def), &*def, lens, m),
    ensures
        reaches(derived, &*def, lens),
{
    lemma_new_derivation(derived, target, def, &*def, lens, m);
    if reaches_in(derived, &*def, lens, m) {
    } else {
        assert(reaches_in(derived, &*def, target, m));
    }
}

/// A derivation that does not lead to its own name keeps the derivations free of cycles.
pub proof fn law_checked_derivation_stays_acyclic(
    derived: Derivations,
    target: Seq<char>,
    def: Arc<Expr>,
)
    requires
        acyclic(derived),
        !derived.contains_key(target),
        !reaches(derived, &*def, target),
    ensures
        acyclic(derived.insert(target, def)),
{
    let after = derived.insert(target, def);
    assert forall|lens: Seq<char>| #[trigger] after.contains_key(lens) implies !reaches(
        after,
        &*after[lens],
        lens,
    ) by {
        if reaches(after, &*after[lens], lens) {
            let k = choose|k: nat| reaches_in(after, &*after[lens], lens, k);
            if lens == target {
                lemma_target_stays_apart(derived, target, def, target, k);
            } else {
                lemma_new_derivation(derived, target, def, &*derived[lens], lens, k);
                assert(derived.contains_key(lens));
                if reaches_in(derived, &*derived[lens], lens, k) {
                    assert(reaches(derived, &*derived[lens], lens));
                } else {
                    let m = choose|m: nat| m < k && reaches_in(after, &*def, lens, m);
                    lemma_target_stays_apart(derived, target, def, lens, m);
                    let p = choose|p: nat| reaches_in(derived, &*def, lens, p);
                    lemma_reaches_through(derived, &*def, lens, target, p, k);
                }
            }
        }
    }
}

/// Dropping a derivation keeps the derivations free of cycles.
pub proof fn law_dropped_derivation_stays_acyclic(derived: Derivations, target: Seq<char>)
    requires
        acyclic(derived),
    ensures
        acyclic(derived.remove(target)),
{
    let after = derived.remove(target);
    assert forall|lens: Seq<char>| #[trigger] after.contains_key(lens) implies !reaches(
        after,
        &*after[lens],
        lens,
    ) by {
        if reaches(after, &*after[lens], lens) {
            let k = choose|k: nat| reaches_in(after, &*after[lens], lens, k);
            lemma_fewer_derivations(derived, target, &*after[lens], lens, k);
            assert(derived.contains_key(lens));
            assert(reaches(derived, &*derived[lens], lens));
        }
    }
}

proof fn lemma_fewer_derivations(
    derived: Derivations,
    target: Seq<char>,
    e: &Expr,
    lens: Seq<char>,
    k: nat,
)
    requires
        reaches_in(derived.remove(target), e, lens, k),
    ensures
        reaches_in(derived, e, lens, k),
    decreases k,
{
    if !mentions(e, lens) {
        let after = derived.remove(target);
        let via = choose|via: Seq<char>| #[trigger]
            mentions(e, via) && after.contains_key(via) && reaches_in(
                after,
                &*after[via],
                lens,
                (k - 1) as nat,
            );
        lemma_fewer_derivations(derived, target, &*after[via], lens, (k - 1) as nat);
        assert(derived.contains_key(via));
    }
}

proof fn lemma_listed_push(names: Seq<String>, s: String, name: Seq<char>)
    ensures
        listed(names.push(s), name) <==> listed(names, name) || s@ == name,
{
    if listed(names.push(s), name) {
        let i = choose|i: int| 0 <= i < names.push(s).len() && (#[trigger] names.push(s)[i])@ == name;
        if i < names.len() {
            assert(names[i]@ == name);
        }
    }
    if listed(names, name) {
        let i = choose|i: int| 0 <= i < names.len() && (#[trigger] names[i])@ == name;
        assert(names.push(s)[i]@ == name);
    }
    assert(names.push(s)[names.len() as int]@ == s@);
}

/// Adds the lenses that an expression refers to.
fn push_mentioned(e: &Expr, out: &mut Vec<String>)
    ensures
        forall|n: Seq<char>| #[trigger]
            listed(final(out)@, n) <==> listed(old(out)@, n) || mentions(e, n),
    decreases e,
{
    match e {
        Expr::Lit(_) => {},
        Expr::Ident(name) => {
            let ghost before = out@;
            out.push(name.clone());
            proof {
                assert forall|n: Seq<char>| #[trigger] listed(out@, n) <==> listed(before, n)
                    || mentions(e, n) by {
                    lemma_listed_push(before, *name, n);
                }
            }
        },
        Expr::Unary { expr, .. } => push_mentioned(expr, out),
        Expr::Binary { lhs, rhs, .. } => {
            push_mentioned(lhs, out);
            push_mentioned(rhs, out);
        },
        Expr::Agg { lens, .. } => {
            let ghost before = out@;
            out.push(lens.clone());
            proof {
                assert forall|n: Seq<char>| #[trigger] listed(out@, n) <==> listed(before, n)
                    || mentions(e, n) by {
                    lemma_listed_push(before, *lens, n);
                }
            }
        },
    }
}

/// The lens has been looked at, or is still to be.
spec fn settled(
    derived: Derivations,
    seen: Map<Seq<char>, bool>,
    leaves: Map<Seq<char>, bool>,
    todo: Seq<String>,
    n: Seq<char>,
) -> bool {
    listed(todo, n) || (if derived.contains_key(n) {
        seen.contains_key(n)
    } else {
        leaves.contains_key(n)
    })
}

/// All that `e` and the lenses seen so far refer to is settled.
spec fn walked(
    derived: Derivations,
    e: &Expr,
    seen: Map<Seq<char>, bool>,
    leaves: Map<Seq<char>, bool>,
    todo: Seq<String>,
) -> bool {
    &&& forall|n: Seq<char>| #[trigger]
        mentions(e, n) ==> settled(derived, seen, leaves, todo, n)
    &&& forall|v: Seq<char>, n: Seq<char>|
        #![trigger seen.contains_key(v), mentions(&*derived[v], n)]
        seen.contains_key(v) && mentions(&*derived[v], n) ==> settled(
            derived,
            seen,
            leaves,
            todo,
            n,
        )
}

proof fn lemma_walked_all(
    derived: Derivations,
    e: &Expr,
    seen: Map<Seq<char>, bool>,
    leaves: Map<Seq<char>, bool>,
    n: Seq<char>,
    k: nat,
)
    requires
        walked(derived, e, seen, leaves, Seq::empty()),
        reaches_in(derived, e, n, k),
    ensures
        seen.contains_key(n) || leaves.contains_key(n),
    decreases k,
{
    if mentions(e, n) {
        assert(settled(derived, seen, leaves, Seq::empty(), n));
    } else {
        let via = choose|via: Seq<char>| #[trigger]
            mentions(e, via) && derived.contains_key(via) && reaches_in(
                derived,
                &*derived[via],
                n,
                (k - 1) as nat,
            );
        assert(settled(derived, seen, leaves, Seq::empty(), via));
        assert(walked(derived, &*derived[via], seen, leaves, Seq::empty()));
        lemma_walked_all(derived, &*derived[via], seen, leaves, n, (k - 1) as nat);
    }
}

/// What was settled stays so when a name has been dealt with.
proof fn lemma_still_walked(
    derived: Derivations,
    e: &Expr,
    seen0: Map<Seq<char>, bool>,
    leaves0: Map<Seq<char>, bool>,
    todo0: Seq<String>,
    seen: Map<Seq<char>, bool>,
    leaves: Map<Seq<char>, bool>,
    todo: Seq<String>,
    name: Seq<char>,
)
    requires
        walked(derived, e, seen0, leaves0, todo0),
        forall|n: Seq<char>| #[trigger] listed(todo0, n) ==> listed(todo, n) || name == n,
        seen0.dom().subset_of(seen.dom()),
        leaves0.dom().subset_of(leaves.dom()),
        settled(derived, seen, leaves, todo, name),
        forall|v: Seq<char>| #[trigger]
            seen.contains_key(v) && !seen0.contains_key(v) ==> forall|n: Seq<char>| #[trigger]
                mentions(&*derived[v], n) ==> listed(todo, n),
    ensures
        walked(derived, e, seen, leaves, todo),
{
    assert forall|n: Seq<char>| settled(derived, seen0, leaves0, todo0, n) implies #[trigger] settled(
        derived,
        seen,
        leaves,
        todo,
        n,
    ) by {
        if listed(todo0, n) {
            assert(listed(todo, n) || name == n);
        } else if derived.contains_key(n) {
            assert(seen0.dom().contains(n));
        } else {
            assert(leaves0.dom().contains(n));
        }
    }
    assert forall|v: Seq<char>, n: Seq<char>|
        #![trigger seen.contains_key(v), mentions(&*derived[v], n)]
        seen.contains_key(v) && mentions(&*derived[v], n) implies settled(
        derived,
        seen,
        leaves,
        todo,
        n,
    ) by {
        if seen0.contains_key(v) {
            assert(settled(derived, seen0, leaves0, todo0, n));
        } else {
            assert(listed(todo, n));
        }
    }
}

/// The derived lenses and the other lenses that an expression leads to.
fn walk(derived: &NameMap<Arc<Expr>>, expr: &Expr) -> (r: (NameMap<bool>, NameMap<bool>))
    ensures
        forall|n: Seq<char>| #[trigger]
            r.0@.contains_key(n) <==> reaches(derived@, expr, n) && derived@.contains_key(n),
        forall|n: Seq<char>| #[trigger]
            r.1@.contains_key(n) <==> reaches(derived@, expr, n) && !derived@.contains_key(n),
{
    let mut seen: NameMap<bool> = NameMap::new();
    let mut leaves: NameMap<bool> = NameMap::new();
    let mut todo: Vec<String> = Vec::new();
    push_mentioned(expr, &mut todo);
    let bound: usize = derived.len();
    let mut visited: usize = 0;
    proof {
        assert forall|n: Seq<char>| #[trigger] listed(todo@, n) implies reaches(
            derived@,
            expr,
            n,
        ) by {
            assert(reaches_in(derived@, expr, n, 0));
        }
    }
    while todo.len() > 0
        invariant
            bound == derived@.dom().len(),
            derived@.dom().finite(),
            seen@.dom().finite(),
            visited == seen@.dom().len(),
            seen@.dom().subset_of(derived@.dom()),
            forall|n: Seq<char>| #[trigger] listed(todo@, n) ==> reaches(derived@, expr, n),
            forall|n: Seq<char>| #[trigger] seen@.contains_key(n) ==> reaches(derived@, expr, n),
            forall|n: Seq<char>| #[trigger]
                leaves@.contains_key(n) ==> reaches(derived@, expr, n) && !derived@.contains_key(n),
            walked(derived@, expr, seen@, leaves@, todo@),
        decreases bound - visited, todo@.len(),
    {
        let ghost todo0 = todo@;
        let ghost seen0 = seen@;
        let ghost leaves0 = leaves@;
        if let Some(name) = todo.pop() {
            let ghost todo1 = todo@;
            proof {
                assert(todo0 =~= todo@.push(name));
                assert forall|n: Seq<char>| #[trigger] listed(todo0, n) <==> listed(todo1, n)
                    || name@ == n by {
                    lemma_listed_push(todo1, name, n);
                }
                assert(listed(todo0, name@));
                assert forall|n: Seq<char>| #[trigger] listed(todo1, n) implies reaches(
                    derived@,
                    expr,
                    n,
                ) by {
                    assert(listed(todo0, n));
                }
            }
            if let Some(def) = derived.get(name.as_str()) {
                if !seen.contains_key(name.as_str()) {
                    proof {
                        vstd::set_lib::lemma_len_subset(
                            seen0.dom().insert(name@),
                            derived@.dom(),
                        );
                    }
                    seen.insert(name.as_str(), true);
                    visited = visited + 1;
                    push_mentioned(def, &mut todo);
                    proof {
                        assert(seen@.dom() =~= seen0.dom().insert(name@));
                        let k = choose|k: nat| reaches_in(derived@, expr, name@, k);
                        assert forall|n: Seq<char>| #[trigger] listed(todo@, n) implies reaches(
                            derived@,
                            expr,
                            n,
                        ) by {
                            if !listed(todo1, n) {
                                assert(reaches_in(derived@, &*derived@[name@], n, 0));
                                lemma_reaches_through(derived@, expr, name@, n, k, 0);
                            }
                        }
                    }
                }
            } else {
                leaves.insert(name.as_str(), true);
            }
            proof {
                assert forall|n: Seq<char>| #[trigger] listed(todo0, n) implies listed(todo@, n)
                    || name@ == n by {
                    assert(listed(todo1, n) || name@ == n);
                }
                lemma_still_walked(
                    derived@,
                    expr,
                    seen0,
                    leaves0,
                    todo0,
                    seen@,
                    leaves@,
                    todo@,
                    name@,
                );
            }
        }
    }
    proof {
        assert(todo@ =~= Seq::empty());
        assert forall|n: Seq<char>| #[trigger] reaches(derived@, expr, n) implies seen@.contains_key(n)
            || leaves@.contains_key(n) by {
            let k = choose|k: nat| reaches_in(derived@, expr, n, k);
            lemma_walked_all(derived@, expr, seen@, leaves@, n, k);
        }
        assert forall|n: Seq<char>| #[trigger] seen@.contains_key(n) implies derived@.contains_key(
            n,
        ) by {
            assert(seen@.dom().contains(n));
        }
    }
    (seen, leaves)
}

/// Whether deriving `target` from `expr` would make it lead to itself.
pub fn would_cycle(derived: &NameMap<Arc<Expr>>, target: &str, expr: &Expr) -> (r: bool)
    ensures
        r == reaches(derived@, expr, target@),
{
    let (seen, leaves) = walk(derived, expr);
    seen.contains_key(target) || leaves.contains_key(target)
}

/// A lens that is not itself derived and whose values the expression reads, directly or
/// through derived lenses.
pub open spec fn reads(derived: Derivations, e: &Expr, lens: Seq<char>) -> bool {
    reaches(derived, e, lens) && !derived.contains_key(lens)
}

/// The names are in ascending order, each once, and are exactly those of the predicate.
pub open spec fn lists_exactly(names: Seq<String>, p: spec_fn(Seq<char>) -> bool) -> bool {
    &&& in_name_order(names)
    &&& forall|n: Seq<char>| #[trigger] listed(names, n) <==> p(n)
}

/// The lenses whose writes change what the expression yields, in ascending order.
pub fn collect_deps(derived: &NameMap<Arc<Expr>>, expr: &Expr) -> (r: Vec<String>)
    ensures
        lists_exactly(r@, |n: Seq<char>| reads(derived@, expr, n)),
{
    let (_, leaves) = walk(derived, expr);
    let r = leaves.names();
    proof {
        assert forall|n: Seq<char>| #[trigger] listed(r@, n) <==> reads(derived@, expr, n) by {
            assert(leaves@.contains_key(n) <==> reads(derived@, expr, n));
        }
    }
    r
}

} // verus!
