//! Values that can be copied exactly.

use std::sync::Arc;
use vstd::prelude::*;

verus! {

/// A value that can be copied so that the copy is the same value.
pub trait Exact: Sized {
    fn dup(&self) -> (r: Self)
        ensures
            r == *self,
    ;
}

impl Exact for i64 {
    fn dup(&self) -> (r: Self) {
        *self
    }
}

impl Exact for i32 {
    fn dup(&self) -> (r: Self) {
        *self
    }
}

impl Exact for i8 {
    fn dup(&self) -> (r: Self) {
        *self
    }
}

impl Exact for u64 {
    fn dup(&self) -> (r: Self) {
        *self
    }
}

impl Exact for usize {
    fn dup(&self) -> (r: Self) {
        *self
    }
}

impl Exact for String {
    fn dup(&self) -> (r: Self) {
        self.clone()
    }
}

impl Exact for (i64, i64) {
    fn dup(&self) -> (r: Self) {
        *self
    }
}

/// Another handle on a shared value: `Arc::clone`, whose result points to the same
/// value.
#[verifier::external_body]
pub(crate) fn share<T>(a: &Arc<T>) -> (r: Arc<T>)
    ensures
        r == *a,
{
    Arc::clone(a)
}

impl<T> Exact for Arc<T> {
    fn dup(&self) -> (r: Self) {
        share(self)
    }
}

} // verus!
