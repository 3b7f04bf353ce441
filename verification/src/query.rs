//! Reading lenses.

use crate::ast::{AggFunc, Expr};
use crate::catalog::lists_exactly;
use crate::change::{
    arity_error, ensure_base_lens, ensure_lens_exists, ensure_single_axis,
};
use crate::clock::{seconds_of, whole_secs};
use crate::error::{same, same_view, ExecError, ExecErrorV};
use crate::eval::{agg_over, cutoff_of, greater, lens_at, range_of, ttl_cutoff};
use crate::exact::Exact;
use crate::inputs::Inputs;
use crate::layers::{newest, probe, stack_wf, traces, Segment};
use crate::memory::stack_of;
use crate::model::{Layer, LayerId, Timestamp};
use crate::names::{listed, NameMap};
use crate::output::LayerInfo;
use crate::state::{
    is_base_lens, is_single_axis, lens_exists, wrong_arity, DbState, StateV,
};
use crate::value::Value;
use vstd::prelude::*;

verus! {

/// The part of a result that `OFFSET` and `LIMIT` leave.
pub open spec fn window_of<T>(v: Seq<T>, offset: Option<u64>, limit: Option<u64>) -> Seq<T> {
    let from: int = match offset {
        Some(n) => if n <= v.len() {
            n as int
        } else {
            v.len() as int
        },
        None => 0,
    };
    let rest = v.skip(from);
    match limit {
        Some(n) => if n <= rest.len() {
            rest.take(n as int)
        } else {
            rest
        },
        None => rest,
    }
}

/// The part of a result that `OFFSET` and `LIMIT` leave.
pub fn apply_offset_limit(v: Vec<Segment<Value>>, offset: Option<u64>, limit: Option<u64>) -> (r: Vec<
    Segment<Value>,
>)
    ensures
        r@ == window_of(v@, offset, limit),
{
    if offset.is_none() && limit.is_none() {
        assert(v@.skip(0) =~= v@);
        return v;
    }
    let n: usize = v.len();
    let from: usize = match offset {
        Some(k) => if k <= n as u64 {
            k as usize
        } else {
            n
        },
        None => 0,
    };
    let to: usize = match limit {
        Some(k) => if k <= (n - from) as u64 {
            from + k as usize
        } else {
            n
        },
        None => n,
    };
    let mut out: Vec<Segment<Value>> = Vec::new();
    let mut i: usize = from;
    while i < to
        invariant
            from <= i <= to <= n,
            n == v@.len(),
            out@ =~= v@.subrange(from as int, i as int),
        decreases to - i,
    {
        out.push((v[i].0, v[i].1, v[i].2.dup()));
        i = i + 1;
    }
    proof {
        let rest = v@.skip(from as int);
        assert(rest.take(to - from) =~= v@.subrange(from as int, to as int));
        assert(rest.take(rest.len() as int) =~= rest);
    }
    out
}

impl StateV {
    /// The time before which a lens shows nothing, if there is one.
    pub open spec fn cutoff(self, name: Seq<char>, inputs: &Inputs) -> Option<i64> {
        cutoff_of(self.ttl, whole_secs(inputs.now_ms) as i64, name)
    }

    /// Where a window on a lens begins, given its time to live.
    pub open spec fn window_start(self, name: Seq<char>, start: i64, inputs: &Inputs) -> i64 {
        match self.cutoff(name, inputs) {
            Some(c) => greater(start, c),
            None => start,
        }
    }
}

/// `AT LENS`.
pub open spec fn at_of(s: StateV, name: Seq<char>, t: i64, inputs: &Inputs) -> Result<
    Option<Value>,
    ExecErrorV,
> {
    match is_single_axis(s, name, "AT"@) {
        Err(e) => Err(e),
        Ok(()) => if s.cutoff(name, inputs) matches Some(c) && t < c {
            Ok(None)
        } else {
            lens_at(s.env(inputs), name, t, s.fuel())
        },
    }
}

/// `AT LENS` with one coordinate per axis.
pub open spec fn at_nd_of(s: StateV, name: Seq<char>, ts: Seq<i64>, as_of: Option<i64>) -> Result<
    Option<Value>,
    ExecErrorV,
> {
    match is_base_lens(s, name, "AT"@) {
        Err(e) => Err(e),
        Ok(()) => if ts.len() != s.arity(name) {
            Err(wrong_arity(name, s.arity(name), ts.len()))
        } else {
            Ok(newest(stack_of(s.db.stacks, name), ts, as_of))
        },
    }
}

/// `AT LENS ... AS OF`.
pub open spec fn at_as_of_of(s: StateV, name: Seq<char>, t: i64, as_of: i64) -> Result<
    Option<Value>,
    ExecErrorV,
> {
    match is_base_lens(s, name, "AT AS OF"@) {
        Err(e) => Err(e),
        Ok(()) => match is_single_axis(s, name, "AT AS OF"@) {
            Err(e) => Err(e),
            Ok(()) => Ok(newest(stack_of(s.db.stacks, name), seq![t], Some(as_of))),
        },
    }
}

/// What the oldest layer with a number says of a point.
pub open spec fn numbered_hit(layers: Seq<Layer<Value>>, id: LayerId, ts: Seq<i64>) -> Option<Value>
    decreases layers.len(),
{
    if layers.len() == 0 {
        None
    } else if layers[0].id == id {
        layers[0].hit(ts)
    } else {
        numbered_hit(layers.drop_first(), id, ts)
    }
}

/// `AT LENS ... LAYER`.
pub open spec fn at_layer_of(s: StateV, name: Seq<char>, t: i64, id: LayerId) -> Result<
    Option<Value>,
    ExecErrorV,
> {
    match is_base_lens(s, name, "AT LAYER"@) {
        Err(e) => Err(e),
        Ok(()) => match is_single_axis(s, name, "AT LAYER"@) {
            Err(e) => Err(e),
            Ok(()) => Ok(numbered_hit(stack_of(s.db.stacks, name), id, seq![t])),
        },
    }
}

/// What is told of a layer.
pub open spec fn info_of<V>(layer: Layer<V>) -> LayerInfo {
    LayerInfo {
        id: layer.id,
        written_at: layer.written_at,
        min_start: layer.min_start,
        max_end: layer.max_end,
        tau_count: layer.taus@.len() as usize,
    }
}

/// The layers that reach into a window, oldest first; all of them where none is given.
pub open spec fn history_of(layers: Seq<Layer<Value>>, range: Option<(i64, i64)>) -> Seq<LayerInfo>
    decreases layers.len(),
{
    if layers.len() == 0 {
        Seq::empty()
    } else {
        let front = history_of(layers.drop_last(), range);
        let layer = layers.last();
        if range matches Some((start, end)) && !(layer.max_end > start && layer.min_start < end) {
            front
        } else {
            front.push(info_of(layer))
        }
    }
}

/// Whether `RANGE LENS` may be answered.
pub open spec fn range_allowed(s: StateV, name: Seq<char>, start: i64, end: i64, kind: Seq<char>) -> Result<
    (),
    ExecErrorV,
> {
    if start >= end {
        Err(ExecErrorV::InvalidRange)
    } else {
        match lens_exists(s, name) {
            Err(e) => Err(e),
            Ok(()) => is_single_axis(s, name, kind),
        }
    }
}

/// `RANGE LENS`. A base lens without a filter answers with its trace; other lenses are
/// evaluated stretch by stretch.
pub open spec fn range_answered(
    s: StateV,
    name: Seq<char>,
    start: i64,
    end: i64,
    filter: Option<&Expr>,
    limit: Option<u64>,
    offset: Option<u64>,
    inputs: &Inputs,
    r: Result<Seq<Segment<Value>>, ExecErrorV>,
) -> bool {
    let from = s.window_start(name, start, inputs);
    match range_allowed(s, name, start, end, "RANGE"@) {
        Err(e) => r == Err::<Seq<Segment<Value>>, ExecErrorV>(e),
        Ok(()) => if from >= end {
            r is Ok && r->Ok_0.len() == 0
        } else if filter is None && s.types.contains_key(name) {
            r is Ok && exists|segs: Seq<Segment<Value>>| #[trigger]
                traces(
                    segs,
                    probe(stack_of(s.db.stacks, name), Seq::empty(), None),
                    from as int,
                    end as int,
                ) && r->Ok_0 == window_of(segs, offset, limit)
        } else {
            match range_of(s.env(inputs), name, from, end, filter, s.fuel()) {
                Err(e) => r == Err::<Seq<Segment<Value>>, ExecErrorV>(e),
                Ok(segs) => r is Ok && r->Ok_0 == window_of(segs, offset, limit),
            }
        },
    }
}

/// `RANGE LENS` over valid time with the other axes fixed.
pub open spec fn range_nd_answered(
    s: StateV,
    name: Seq<char>,
    start: i64,
    end: i64,
    fixed: Seq<i64>,
    r: Result<Seq<Segment<Value>>, ExecErrorV>,
) -> bool {
    if start >= end {
        r == Err::<Seq<Segment<Value>>, ExecErrorV>(ExecErrorV::InvalidRange)
    } else {
        match is_base_lens(s, name, "RANGE"@) {
            Err(e) => r == Err::<Seq<Segment<Value>>, ExecErrorV>(e),
            Ok(()) => if fixed.len() + 1 != s.arity(name) {
                r == Err::<Seq<Segment<Value>>, ExecErrorV>(
                    wrong_arity(name, s.arity(name), fixed.len() + 1),
                )
            } else {
                r is Ok && traces(
                    r->Ok_0,
                    probe(stack_of(s.db.stacks, name), fixed, None),
                    start as int,
                    end as int,
                )
            },
        }
    }
}

/// `REDUCE LENS`.
pub open spec fn reduce_of(
    s: StateV,
    name: Seq<char>,
    start: i64,
    end: i64,
    func: AggFunc,
    inputs: &Inputs,
) -> Result<Option<Value>, ExecErrorV> {
    let from = s.window_start(name, start, inputs);
    match range_allowed(s, name, start, end, "REDUCE"@) {
        Err(e) => Err(e),
        Ok(()) => if from >= end {
            Ok(None)
        } else {
            agg_over(s.env(inputs), name, func, from, end, s.fuel())
        },
    }
}

pub open spec fn segments_shown(r: Result<Vec<Segment<Value>>, ExecError>) -> Result<
    Seq<Segment<Value>>,
    ExecErrorV,
> {
    match r {
        Ok(v) => Ok(v@),
        Err(e) => Err(e@),
    }
}

impl DbState {
    fn cutoff_time(&self, name: &str, inputs: &Inputs) -> (r: Option<Timestamp>)
        ensures
            r == self@.cutoff(name@, inputs),
    {
        ttl_cutoff(&self.catalog.ttl, seconds_of(inputs.now_ms), name)
    }

    fn window_from(&self, name: &str, start: Timestamp, inputs: &Inputs) -> (r: Timestamp)
        ensures
            r == self@.window_start(name@, start, inputs),
    {
        match self.cutoff_time(name, inputs) {
            Some(c) => if start >= c {
                start
            } else {
                c
            },
            None => start,
        }
    }

    /// `AT LENS`.
    pub fn at_lens(&self, name: &str, t: Timestamp, inputs: &Inputs) -> (r: Result<
        Option<Value>,
        ExecError,
    >)
        requires
            self@.wf(),
        ensures
            same(r, at_of(self@, name@, t, inputs)),
    {
        if let Err(e) = ensure_single_axis(self, name, "AT") {
            return Err(e);
        }
        if let Some(c) = self.cutoff_time(name, inputs) {
            if t < c {
                return Ok(None);
            }
        }
        let fuel: usize = self.catalog.derived.len();
        self.scope(inputs).eval_lens(name, t, fuel)
    }

    /// `AT LENS` with one coordinate per axis.
    pub fn at_nd_lens(&self, name: &str, ts: &Vec<Timestamp>, as_of: Option<i64>) -> (r: Result<
        Option<Value>,
        ExecError,
    >)
        ensures
            same(r, at_nd_of(self@, name@, ts@, as_of)),
    {
        if let Err(e) = ensure_base_lens(self, name, "AT") {
            return Err(e);
        }
        let arity: usize = self.lens_arity(name);
        if ts.len() != arity {
            return Err(arity_error(name, arity, ts.len() as u128));
        }
        Ok(self.db.store.get(name, ts.as_slice(), as_of))
    }

    fn lens_arity(&self, name: &str) -> (r: usize)
        ensures
            r == self@.arity(name@),
    {
        match self.catalog.axes.get(name) {
            Some(axes) => axes.len(),
            None => 1,
        }
    }

    /// `AT LENS ... AS OF`.
    pub fn at_as_of_lens(&self, name: &str, t: Timestamp, as_of: i64) -> (r: Result<
        Option<Value>,
        ExecError,
    >)
        ensures
            same(r, at_as_of_of(self@, name@, t, as_of)),
    {
        if let Err(e) = ensure_base_lens(self, name, "AT AS OF") {
            return Err(e);
        }
        if let Err(e) = ensure_single_axis(self, name, "AT AS OF") {
            return Err(e);
        }
        let point: Vec<Timestamp> = vec![t];
        assert(point@ =~= seq![t]);
        Ok(self.db.store.get(name, point.as_slice(), Some(as_of)))
    }

    /// `AT LENS ... LAYER`.
    pub fn at_layer_lens(&self, name: &str, t: Timestamp, layer_id: LayerId) -> (r: Result<
        Option<Value>,
        ExecError,
    >)
        ensures
            same(r, at_layer_of(self@, name@, t, layer_id)),
    {
        if let Err(e) = ensure_base_lens(self, name, "AT LAYER") {
            return Err(e);
        }
        if let Err(e) = ensure_single_axis(self, name, "AT LAYER") {
            return Err(e);
        }
        let layers = match self.db.store.layers(name) {
            Some(layers) => layers,
            None => {
                return Ok(None);
            },
        };
        let point: Vec<Timestamp> = vec![t];
        assert(point@ =~= seq![t]);
        let ghost all = layers@;
        let mut i: usize = 0;
        assert(all.skip(0) =~= all);
        while i < layers.len()
            invariant
                i <= layers@.len(),
                all == layers@,
                point@ == seq![t],
                stack_wf(layers@),
                numbered_hit(all, layer_id, seq![t]) == numbered_hit(
                    all.skip(i as int),
                    layer_id,
                    seq![t],
                ),
                at_layer_of(self@, name@, t, layer_id) == Ok::<Option<Value>, ExecErrorV>(
                    numbered_hit(all, layer_id, seq![t]),
                ),
            decreases layers@.len() - i,
        {
            proof {
                assert(all.skip(i as int)[0] == all[i as int]);
                assert(all.skip(i as int).drop_first() =~= all.skip(i + 1));
            }
            if layers[i].id == layer_id {
                return match layers[i].at_nd(point.as_slice()) {
                    Some(v) => Ok(Some(v.dup())),
                    None => Ok(None),
                };
            }
            i = i + 1;
        }
        Ok(None)
    }

    /// `HISTORY LENS`.
    pub fn history_lens(&self, name: &str, range: Option<(i64, i64)>) -> (r: Result<
        Vec<LayerInfo>,
        ExecError,
    >)
        ensures
            same_view(
                r,
                |v: Vec<LayerInfo>| v@,
                match lens_exists(self@, name@) {
                    Err(e) => Err(e),
                    Ok(()) => Ok(history_of(stack_of(self@.db.stacks, name@), range)),
                },
            ),
    {
        if let Err(e) = ensure_lens_exists(self, name) {
            return Err(e);
        }
        let mut out: Vec<LayerInfo> = Vec::new();
        if let Some(layers) = self.db.store.layers(name) {
            let mut i: usize = 0;
            assert(layers@.take(0) =~= Seq::empty());
            while i < layers.len()
                invariant
                    i <= layers@.len(),
                    out@ == history_of(layers@.take(i as int), range),
                decreases layers@.len() - i,
            {
                let layer = &layers[i];
                proof {
                    assert(layers@.take(i + 1).drop_last() =~= layers@.take(i as int));
                    assert(layers@.take(i + 1).last() == *layer);
                }
                let wanted: bool = match range {
                    Some((start, end)) => layer.max_end > start && layer.min_start < end,
                    None => true,
                };
                if wanted {
                    out.push(
                        LayerInfo {
                            id: layer.id,
                            written_at: layer.written_at,
                            min_start: layer.min_start,
                            max_end: layer.max_end,
                            tau_count: layer.taus.len(),
                        },
                    );
                }
                i = i + 1;
            }
            assert(layers@.take(layers@.len() as int) =~= layers@);
        }
        Ok(out)
    }

    /// `RANGE LENS`.
    pub fn range_lens(
        &self,
        name: &str,
        start: Timestamp,
        end: Timestamp,
        filter: Option<&Expr>,
        limit: Option<u64>,
        offset: Option<u64>,
        inputs: &Inputs,
    ) -> (r: Result<Vec<Segment<Value>>, ExecError>)
        requires
            self@.wf(),
        ensures
            range_answered(
                self@,
                name@,
                start,
                end,
                filter,
                limit,
                offset,
                inputs,
                segments_shown(r),
            ),
    {
        if start >= end {
            return Err(ExecError::InvalidRange);
        }
        if let Err(e) = ensure_lens_exists(self, name) {
            return Err(e);
        }
        if let Err(e) = ensure_single_axis(self, name, "RANGE") {
            return Err(e);
        }
        let from: i64 = self.window_from(name, start, inputs);
        if from >= end {
            return Ok(Vec::new());
        }
        if filter.is_none() && self.catalog.types.contains_key(name) {
            let none: Vec<Timestamp> = Vec::new();
            assert(none@ =~= Seq::empty());
            let segs = self.db.store.scan(name, from, end, none.as_slice(), None);
            return Ok(apply_offset_limit(segs, offset, limit));
        }
        let fuel: usize = self.catalog.derived.len();
        let scope = self.scope(inputs);
        let bounds: Vec<Timestamp> = match scope.collect_range_bounds(
            name,
            from,
            end,
            filter,
            fuel,
        ) {
            Ok(bounds) => bounds,
            Err(e) => {
                return Err(e);
            },
        };
        match scope.build_range_segments(name, bounds.as_slice(), filter, fuel) {
            Ok(segs) => Ok(apply_offset_limit(segs, offset, limit)),
            Err(e) => Err(e),
        }
    }

    /// `RANGE LENS` over valid time with the other axes fixed.
    pub fn range_nd_lens(
        &self,
        name: &str,
        start: Timestamp,
        end: Timestamp,
        fixed: &Vec<Timestamp>,
    ) -> (r: Result<Vec<Segment<Value>>, ExecError>)
        ensures
            range_nd_answered(self@, name@, start, end, fixed@, segments_shown(r)),
    {
        if start >= end {
            return Err(ExecError::InvalidRange);
        }
        if let Err(e) = ensure_base_lens(self, name, "RANGE") {
            return Err(e);
        }
        let arity: usize = self.lens_arity(name);
        if arity == 0 || fixed.len() != arity - 1 {
            return Err(arity_error(name, arity, fixed.len() as u128 + 1));
        }
        Ok(self.db.store.scan(name, start, end, fixed.as_slice(), None))
    }

    /// `REDUCE LENS`.
    pub fn reduce_lens(
        &self,
        name: &str,
        start: Timestamp,
        end: Timestamp,
        func: AggFunc,
        inputs: &Inputs,
    ) -> (r: Result<Option<Value>, ExecError>)
        requires
            self@.wf(),
        ensures
            same(r, reduce_of(self@, name@, start, end, func, inputs)),
    {
        if start >= end {
            return Err(ExecError::InvalidRange);
        }
        if let Err(e) = ensure_lens_exists(self, name) {
            return Err(e);
        }
        if let Err(e) = ensure_single_axis(self, name, "REDUCE") {
            return Err(e);
        }
        let from: i64 = self.window_from(name, start, inputs);
        if from >= end {
            return Ok(None);
        }
        let fuel: usize = self.catalog.derived.len();
        self.scope(inputs).eval_agg(name, func, from, end, fuel)
    }

    /// `SHOW LENSES`: the base and the derived lenses, sorted.
    pub fn show_lenses(&self) -> (r: Vec<String>)
        requires
            self@.wf(),
        ensures
            lists_exactly(r@, |n: Seq<char>| self@.has_lens(n)),
    {
        let mut all: NameMap<bool> = NameMap::new();
        let base = self.catalog.types.names();
        let lazy = self.catalog.derived.names();
        let mut i: usize = 0;
        while i < base.len()
            invariant
                i <= base@.len(),
                forall|n: Seq<char>| #[trigger]
                    all@.contains_key(n) <==> listed(base@.take(i as int), n),
            decreases base@.len() - i,
        {
            all.insert(base[i].as_str(), true);
            proof {
                lemma_listed_next(base@, i as int);
            }
            i = i + 1;
        }
        assert(base@.take(base@.len() as int) =~= base@);
        i = 0;
        assert(forall|n: Seq<char>| !listed(lazy@.take(0), n));
        while i < lazy.len()
            invariant
                i <= lazy@.len(),
                forall|n: Seq<char>| #[trigger]
                    all@.contains_key(n) <==> listed(base@, n) || listed(lazy@.take(i as int), n),
            decreases lazy@.len() - i,
        {
            all.insert(lazy[i].as_str(), true);
            proof {
                lemma_listed_next(lazy@, i as int);
            }
            i = i + 1;
        }
        assert(lazy@.take(lazy@.len() as int) =~= lazy@);
        let r = all.names();
        proof {
            assert forall|n: Seq<char>| #[trigger] listed(r@, n) <==> self@.has_lens(n) by {
                assert(all@.contains_key(n) <==> listed(base@, n) || listed(lazy@, n));
                assert(self.catalog.types@.contains_key(n) <==> listed(base@, n));
                assert(self.catalog.derived@.contains_key(n) <==> listed(lazy@, n));
            }
        }
        r
    }
}

proof fn lemma_listed_next(names: Seq<String>, i: int)
    requires
        0 <= i < names.len(),
    ensures
        forall|n: Seq<char>| #[trigger]
            listed(names.take(i + 1), n) <==> listed(names.take(i), n) || names[i]@ == n,
{
    assert forall|n: Seq<char>| #[trigger] listed(names.take(i + 1), n) <==> listed(
        names.take(i),
        n,
    ) || names[i]@ == n by {
        let a = names.take(i);
        let b = names.take(i + 1);
        if listed(b, n) {
            let k = choose|k: int| 0 <= k < b.len() && (#[trigger] b[k])@ == n;
            if k < i {
                assert(a[k]@ == n);
            }
        }
        if listed(a, n) {
            let k = choose|k: int| 0 <= k < a.len() && (#[trigger] a[k])@ == n;
            assert(b[k]@ == n);
        }
        assert(b[i] == names[i]);
    }
}

/// Where a lens has a single layer, asking that layer is asking the lens.
pub proof fn law_only_layer_is_all(layer: Layer<Value>, ts: Seq<i64>)
    ensures
        numbered_hit(seq![layer], layer.id, ts) == newest(seq![layer], ts, None),
{
    let layers = seq![layer];
    assert(layers.drop_last() =~= Seq::empty());
    assert(newest(layers.drop_last(), ts, None) is None);
}

} // verus!
