//! The errors of statement execution.

use crate::floats::{FloatTask, FloatTaskV};
use crate::value::Type;
use vstd::prelude::*;

verus! {

/// All errors that statement execution can produce.
#[derive(Debug, Clone, PartialEq)]
pub enum ExecError {
    /// No database is active.
    NoActiveDatabase,
    UnknownDatabase(String),
    DuplicateDatabase(String),
    UnknownLens(String),
    DuplicateLens(String),
    /// The value's type is not the lens's declared type.
    TypeMismatch { lens: String, expected: Type, got: String },
    /// An expression or a statement combines what does not fit.
    InvalidExpr(String),
    /// An interval with its start at or after its end.
    InvalidRange,
    /// A failure of the storage.
    Io(String),
    /// A derived lens would refer to itself.
    CycleDetected(String),
    PermissionDenied(String),
    DuplicateUser(String),
    UnknownUser(String),
    TransactionAlreadyActive,
    NoActiveTransaction,
    /// A direct write to a materialised lens.
    MaterialisedLens(String),
    /// Not an error of the statement: the result of a floating-point task is wanted, and
    /// the statement is to be executed again once it is recorded.
    Pending(FloatTask),
    /// Likewise: the contents of a file are wanted.
    PendingFile(String),
    /// Likewise: the host is to compile the source of a function.
    PendingCode(String),
}

pub enum ExecErrorV {
    NoActiveDatabase,
    UnknownDatabase(Seq<char>),
    DuplicateDatabase(Seq<char>),
    UnknownLens(Seq<char>),
    DuplicateLens(Seq<char>),
    TypeMismatch { lens: Seq<char>, expected: Type, got: Seq<char> },
    InvalidExpr(Seq<char>),
    InvalidRange,
    Io(Seq<char>),
    CycleDetected(Seq<char>),
    PermissionDenied(Seq<char>),
    DuplicateUser(Seq<char>),
    UnknownUser(Seq<char>),
    TransactionAlreadyActive,
    NoActiveTransaction,
    MaterialisedLens(Seq<char>),
    Pending(FloatTaskV),
    PendingFile(Seq<char>),
    PendingCode(Seq<char>),
}

impl View for ExecError {
    type V = ExecErrorV;

    open spec fn view(&self) -> ExecErrorV {
        match *self {
            ExecError::NoActiveDatabase => ExecErrorV::NoActiveDatabase,
            ExecError::UnknownDatabase(s) => ExecErrorV::UnknownDatabase(s@),
            ExecError::DuplicateDatabase(s) => ExecErrorV::DuplicateDatabase(s@),
            ExecError::UnknownLens(s) => ExecErrorV::UnknownLens(s@),
            ExecError::DuplicateLens(s) => ExecErrorV::DuplicateLens(s@),
            ExecError::TypeMismatch { lens, expected, got } => ExecErrorV::TypeMismatch {
                lens: lens@,
                expected,
                got: got@,
            },
            ExecError::InvalidExpr(s) => ExecErrorV::InvalidExpr(s@),
            ExecError::InvalidRange => ExecErrorV::InvalidRange,
            ExecError::Io(s) => ExecErrorV::Io(s@),
            ExecError::CycleDetected(s) => ExecErrorV::CycleDetected(s@),
            ExecError::PermissionDenied(s) => ExecErrorV::PermissionDenied(s@),
            ExecError::DuplicateUser(s) => ExecErrorV::DuplicateUser(s@),
            ExecError::UnknownUser(s) => ExecErrorV::UnknownUser(s@),
            ExecError::TransactionAlreadyActive => ExecErrorV::TransactionAlreadyActive,
            ExecError::NoActiveTransaction => ExecErrorV::NoActiveTransaction,
            ExecError::MaterialisedLens(s) => ExecErrorV::MaterialisedLens(s@),
            ExecError::Pending(task) => ExecErrorV::Pending(task@),
            ExecError::PendingFile(path) => ExecErrorV::PendingFile(path@),
            ExecError::PendingCode(source) => ExecErrorV::PendingCode(source@),
        }
    }
}

impl ExecErrorV {
    /// The statement has not been refused: something it needs is still to be supplied.
    pub open spec fn wants_input(self) -> bool {
        self is Pending || self is PendingFile || self is PendingCode
    }
}

impl ExecError {
    /// Whether the statement only waits for something it needs.
    pub fn is_pending(&self) -> (r: bool)
        ensures
            r == self@.wants_input(),
    {
        match self {
            ExecError::Pending(_) => true,
            ExecError::PendingFile(_) => true,
            ExecError::PendingCode(_) => true,
            _ => false,
        }
    }
}

/// An executable result is the one that a spec function gives.
pub open spec fn same<T>(r: Result<T, ExecError>, s: Result<T, ExecErrorV>) -> bool {
    match (r, s) {
        (Ok(a), Ok(b)) => a == b,
        (Err(a), Err(b)) => a@ == b,
        _ => false,
    }
}

/// As `same`, for a result whose value is taken by a view.
pub open spec fn same_view<T, U>(
    r: Result<T, ExecError>,
    view: spec_fn(T) -> U,
    s: Result<U, ExecErrorV>,
) -> bool {
    match (r, s) {
        (Ok(a), Ok(b)) => view(a) == b,
        (Err(a), Err(b)) => a@ == b,
        _ => false,
    }
}

} // verus!
