//! What a statement is given from outside: the time, floating-point results, files.

use crate::database::{log_wf, records_view, Record};
use crate::error::{same_view, ExecError, ExecErrorV};
use crate::floats::FloatTable;
use crate::names::NameMap;
use crate::text::owned;
use crate::value::Value;
use std::sync::Arc;
use vstd::prelude::*;

verus! {

/// The contents of files that have been read, or why they could not be.
pub type FileTable = NameMap<Result<String, String>>;

/// Backups that have been read, or why they could not be, by path.
pub type BackupTable = NameMap<Result<Arc<Vec<Record<Value>>>, String>>;

/// The logs that were found of databases, by name.
pub type LogTable = NameMap<Arc<Vec<Record<Value>>>>;

/// What a statement is given from outside.
#[derive(Debug)]
pub struct Inputs {
    /// The current time in milliseconds.
    pub now_ms: i64,
    /// For how many seconds the server has been running.
    pub uptime_secs: u64,
    pub floats: FloatTable,
    pub files: FileTable,
    pub backups: BackupTable,
    pub logs: LogTable,
    /// Whether sources of functions compile, or why they do not.
    pub compiled: NameMap<Result<(), String>>,
}

impl Inputs {
    /// Every layer in a backup or a log is well formed.
    pub open spec fn wf(&self) -> bool {
        &&& forall|path: Seq<char>| #[trigger]
            self.backups@.contains_key(path) ==> (self.backups@[path] matches Ok(log) ==> log_wf(
                records_view(log@),
            ))
        &&& forall|name: Seq<char>| #[trigger]
            self.logs@.contains_key(name) ==> log_wf(records_view(self.logs@[name]@))
    }

    /// Nothing but the time.
    pub fn new(now_ms: i64) -> (r: Self)
        ensures
            r.now_ms == now_ms,
            r.uptime_secs == 0,
            r.files@ == Map::<Seq<char>, Result<String, String>>::empty(),
            r.backups@ == Map::<Seq<char>, Result<Arc<Vec<Record<Value>>>, String>>::empty(),
            r.logs@ == Map::<Seq<char>, Arc<Vec<Record<Value>>>>::empty(),
            r.compiled@ == Map::<Seq<char>, Result<(), String>>::empty(),
            r.wf(),
    {
        Inputs {
            now_ms,
            uptime_secs: 0,
            floats: FloatTable::new(),
            files: NameMap::new(),
            backups: NameMap::new(),
            logs: NameMap::new(),
            compiled: NameMap::new(),
        }
    }
}

/// The text of a file.
pub open spec fn file_text(files: Map<Seq<char>, Result<String, String>>, path: Seq<char>) -> Result<
    Seq<char>,
    ExecErrorV,
> {
    if !files.contains_key(path) {
        Err(ExecErrorV::PendingFile(path))
    } else {
        match files[path] {
            Ok(text) => Ok(text@),
            Err(why) => Err(ExecErrorV::Io(why@)),
        }
    }
}

/// The text of a file, where it has been read.
pub fn read_file(files: &FileTable, path: &str) -> (r: Result<String, ExecError>)
    ensures
        same_view(r, |s: String| s@, file_text(files@, path@)),
{
    match files.get(path) {
        None => Err(ExecError::PendingFile(owned(path))),
        Some(Ok(text)) => Ok(text.clone()),
        Some(Err(why)) => Err(ExecError::Io(why.clone())),
    }
}

} // verus!
