//! Listing the consistent points of a store.

use vstd::prelude::*;
use crate::db::Database;
use crate::model::ConsistentPoint;

verus! {

/// List all consistent points.
pub struct Listcmd {
    /// Path to the database.
    pub db: String,
    /// Print in json.
    pub json: bool,
}

/// One consistent point as it is listed.
#[derive(Clone, Copy, Debug, PartialEq, Eq, Structural)]
pub struct OutputEntry {
    pub lsn: u64,
    pub created_at: u64,
    pub size: u64,
}

pub open spec fn entry_of(p: ConsistentPoint) -> OutputEntry {
    OutputEntry { lsn: p.lsn, created_at: p.created_at, size: p.size }
}

impl Listcmd {
    /// The consistent points to list, by increasing LSN.
    pub fn run(&self, db: &Database) -> (r: Vec<OutputEntry>)
        ensures
            r@.len() == db@.points.len(),
            forall|i: int| 0 <= i < r@.len() ==> r@[i] == entry_of(#[trigger] db@.points[i]),
    {
        let points = db.list_consistent_point();
        let mut out: Vec<OutputEntry> = Vec::new();
        let mut i: usize = 0;
        while i < points.len()
            invariant
                i <= points@.len(),
                out@.len() == i,
                forall|j: int| 0 <= j < i ==> out@[j] == entry_of(#[trigger] points@[j]),
            decreases points.len() - i,
        {
            let p = points[i];
            out.push(OutputEntry { lsn: p.lsn, created_at: p.created_at, size: p.size });
            i += 1;
        }
        out
    }
}

} // verus!
