//! Floating-point work that the evaluator asks for.
//!
//! The evaluator never does floating-point arithmetic. Where it needs a result that is
//! not in the table it was given, it stops and names the task; the caller does the
//! task, records the result and evaluates again.

use crate::text::same_text;
use vstd::prelude::*;

verus! {

/// One floating-point task. Operands and results are binary64 bit patterns.
#[derive(Debug, Clone, PartialEq)]
pub enum FloatTask {
    /// Read a decimal literal.
    Parse(String),
    /// Convert an integer.
    FromInt(i64),
    Sum(u64, u64),
    Difference(u64, u64),
    Product(u64, u64),
    Quotient(u64, u64),
    Remainder(u64, u64),
}

/// A task, with its text taken by its characters.
pub enum FloatTaskV {
    Parse(Seq<char>),
    FromInt(i64),
    Sum(u64, u64),
    Difference(u64, u64),
    Product(u64, u64),
    Quotient(u64, u64),
    Remainder(u64, u64),
}

impl View for FloatTask {
    type V = FloatTaskV;

    open spec fn view(&self) -> FloatTaskV {
        match *self {
            FloatTask::Parse(s) => FloatTaskV::Parse(s@),
            FloatTask::FromInt(i) => FloatTaskV::FromInt(i),
            FloatTask::Sum(a, b) => FloatTaskV::Sum(a, b),
            FloatTask::Difference(a, b) => FloatTaskV::Difference(a, b),
            FloatTask::Product(a, b) => FloatTaskV::Product(a, b),
            FloatTask::Quotient(a, b) => FloatTaskV::Quotient(a, b),
            FloatTask::Remainder(a, b) => FloatTaskV::Remainder(a, b),
        }
    }
}

fn same_task(a: &FloatTask, b: &FloatTask) -> (r: bool)
    ensures
        r == (a@ == b@),
{
    match (a, b) {
        (FloatTask::Parse(x), FloatTask::Parse(y)) => same_text(x.as_str(), y.as_str()),
        (FloatTask::FromInt(x), FloatTask::FromInt(y)) => *x == *y,
        (FloatTask::Sum(x, y), FloatTask::Sum(p, q)) => *x == *p && *y == *q,
        (FloatTask::Difference(x, y), FloatTask::Difference(p, q)) => *x == *p && *y == *q,
        (FloatTask::Product(x, y), FloatTask::Product(p, q)) => *x == *p && *y == *q,
        (FloatTask::Quotient(x, y), FloatTask::Quotient(p, q)) => *x == *p && *y == *q,
        (FloatTask::Remainder(x, y), FloatTask::Remainder(p, q)) => *x == *p && *y == *q,
        _ => false,
    }
}

/// The result recorded last for a task.
pub open spec fn recorded(entries: Seq<(FloatTask, u64)>, task: FloatTaskV) -> Option<u64>
    decreases entries.len(),
{
    if entries.len() == 0 {
        None
    } else if entries.last().0@ == task {
        Some(entries.last().1)
    } else {
        recorded(entries.drop_last(), task)
    }
}

/// The results of floating-point tasks that have been done.
#[derive(Debug)]
pub struct FloatTable {
    entries: Vec<(FloatTask, u64)>,
}

impl FloatTable {
    /// The result of a task, where it has been recorded.
    pub closed spec fn result(&self, task: FloatTaskV) -> Option<u64> {
        recorded(self.entries@, task)
    }

    pub fn new() -> (r: Self)
        ensures
            forall|task: FloatTaskV| #[trigger] r.result(task) is None,
    {
        FloatTable { entries: Vec::new() }
    }

    /// Records the result of a task.
    pub fn record(&mut self, task: FloatTask, bits: u64)
        ensures
            final(self).result(task@) == Some(bits),
            forall|other: FloatTaskV|
                other != task@ ==> #[trigger] final(self).result(other) == old(self).result(other),
    {
        self.entries.push((task, bits));
        assert(self.entries@.drop_last() =~= old(self).entries@);
    }

    pub fn lookup(&self, task: &FloatTask) -> (r: Option<u64>)
        ensures
            r == self.result(task@),
    {
        let mut i: usize = self.entries.len();
        assert(self.entries@.take(i as int) =~= self.entries@);
        while i > 0
            invariant
                i <= self.entries@.len(),
                recorded(self.entries@, task@) == recorded(self.entries@.take(i as int), task@),
            decreases i,
        {
            proof {
                let front = self.entries@.take(i as int);
                assert(front.last() == self.entries@[i - 1]);
                assert(front.drop_last() =~= self.entries@.take(i - 1));
            }
            if same_task(&self.entries[i - 1].0, task) {
                return Some(self.entries[i - 1].1);
            }
            i = i - 1;
        }
        None
    }
}

} // verus!
