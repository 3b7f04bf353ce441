//! What statements answer.

use crate::layers::Segment;
use crate::model::{LayerId, Timestamp};
use crate::perm::Perm;
use crate::value::Value;
use vstd::prelude::*;

verus! {

/// What `HISTORY LENS` tells of a layer.
#[derive(Debug, Clone, Copy, PartialEq, Eq, Structural)]
pub struct LayerInfo {
    pub id: LayerId,
    /// The write time in milliseconds since the Unix epoch.
    pub written_at: i64,
    pub min_start: Timestamp,
    pub max_end: Timestamp,
    pub tau_count: usize,
}

/// The answer to an executed statement.
#[derive(Debug, Clone, PartialEq)]
pub enum Output {
    /// The statement changed something, or nothing, and has no value.
    Empty,
    /// A looked-up value; `None` where the lens has none at that time.
    Value(Option<Value>),
    /// The values over a window.
    Range(Vec<Segment<Value>>),
    /// Sorted names.
    Names(Vec<String>),
    /// Users with their permissions by database.
    Grants(Vec<(String, Vec<(String, Perm)>)>),
    /// The layers of a lens.
    LayerHistory(Vec<LayerInfo>),
    /// Facts about the server.
    Status(Vec<(String, String)>),
}

} // verus!
