//! Squashing the history between two consistent points.

use vstd::prelude::*;
use vstd::string::*;
use crate::db::Database;
use crate::model::{has_point, max_lsn, ConsistentPoint};

verus! {

/// Squash logs.
pub struct SquashCmd {
    /// Start LSN.
    pub start_lsn: u64,
    /// End LSN.
    pub end_lsn: u64,
    /// Data loss confirmation.
    pub data_loss: bool,
    /// Vacuum the database after squash.
    pub vacuum: bool,
    /// Path to the database.
    pub db: String,
}

/// Why a squash is refused.
#[derive(Clone, Copy, Debug, PartialEq, Eq, Structural)]
pub enum SquashError {
    /// The provided `start_lsn` is not a consistent point.
    InconsistentStart,
    /// The provided `end_lsn` is not a consistent point.
    InconsistentEnd,
    /// Squash removes history and the loss was not confirmed.
    DataLoss,
}

impl SquashError {
    /// What the error says.
    pub open spec fn text(self) -> Seq<char> {
        match self {
            SquashError::InconsistentStart => "the provided `start_lsn` is not a consistent point"@,
            SquashError::InconsistentEnd => "the provided `end_lsn` is not a consistent point"@,
            SquashError::DataLoss => "squash removes history - please confirm by adding the flag `--data-loss`."@,
        }
    }

    pub fn message(&self) -> (r: String)
        ensures
            r@ == self.text(),
    {
        match self {
            SquashError::InconsistentStart => String::from_str(
                "the provided `start_lsn` is not a consistent point",
            ),
            SquashError::InconsistentEnd => String::from_str(
                "the provided `end_lsn` is not a consistent point",
            ),
            SquashError::DataLoss => String::from_str(
                "squash removes history - please confirm by adding the flag `--data-loss`.",
            ),
        }
    }
}

impl SquashCmd {
    /// Why this squash is refused, if it is: the start has to be 0 or a
    /// consistent point, the end a consistent point, and the loss of
    /// history confirmed.
    pub open spec fn refusal(&self, points: Seq<ConsistentPoint>) -> Option<SquashError> {
        if self.start_lsn != 0 && !has_point(points, self.start_lsn) {
            Some(SquashError::InconsistentStart)
        } else if !has_point(points, self.end_lsn) {
            Some(SquashError::InconsistentEnd)
        } else if !self.data_loss {
            Some(SquashError::DataLoss)
        } else {
            None
        }
    }

    /// Squashes the history in `(start_lsn, end_lsn]` and drops the blocks
    /// that nothing refers to any more. A refused squash changes nothing.
    pub fn run(&self, db: &mut Database) -> (r: Result<(), SquashError>)
        requires
            old(db).wf(),
        ensures
            final(db).wf(),
            final(db).id() == old(db).id(),
            match r {
                Ok(_) => self.refusal(old(db)@.points) is None && final(db)@ == old(db)@.squashed(
                    self.start_lsn,
                    self.end_lsn,
                ).collected(),
                Err(e) => self.refusal(old(db)@.points) == Some(e) && final(db)@ == old(db)@,
            },
            max_lsn(final(db)@.redo) == max_lsn(old(db)@.redo),
    {
        if self.start_lsn != 0 && db.consistent_point(self.start_lsn).is_none() {
            return Err(SquashError::InconsistentStart);
        }
        if db.consistent_point(self.end_lsn).is_none() {
            return Err(SquashError::InconsistentEnd);
        }
        if !self.data_loss {
            return Err(SquashError::DataLoss);
        }
        db.squash(self.start_lsn, self.end_lsn);
        db.cas_gc();
        Ok(())
    }
}

} // verus!
