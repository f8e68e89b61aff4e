//! The in-memory sink: it applies nothing and remembers the point of the
//! last finished block.
use vstd::prelude::*;
use crate::model::{CRDTCommand, CommandModel, Point, PointModel, opt_point};

verus! {

#[derive(Clone, Debug, PartialEq, Eq)]
pub struct Config {}

impl Config {
    pub fn bootstrapper(self) -> (r: Worker)
        ensures
            r.ops_count == 0,
            r.last_point is None,
    {
        Worker { ops_count: 0, last_point: None }
    }
}

/// The skip sink's view of the last point, for resuming the chain.
#[derive(Clone, Debug, PartialEq, Eq)]
pub struct Cursor {
    pub last_point: Option<Point>,
}

impl Cursor {
    pub fn last_point(&self) -> (r: Option<Point>)
        ensures
            opt_point(r) == opt_point(self.last_point),
    {
        match &self.last_point {
            Some(p) => Some(p.copy()),
            None => None,
        }
    }
}

#[derive(Clone, Debug, PartialEq, Eq)]
pub struct Worker {
    pub ops_count: u64,
    pub last_point: Option<Point>,
}

/// The last point after a command: the command's point where it finishes a
/// block, else unchanged.
pub open spec fn next_last_point(last: Option<PointModel>, c: CommandModel) -> Option<PointModel> {
    match c {
        CommandModel::BlockFinished(p) => Some(p),
        _ => last,
    }
}

impl Worker {
    /// Handles one command: counts it and, where it finishes a block,
    /// records its point.
    pub fn work(&mut self, cmd: CRDTCommand)
        ensures
            final(self).ops_count == if old(self).ops_count == u64::MAX {
                u64::MAX as int
            } else {
                old(self).ops_count + 1
            },
            opt_point(final(self).last_point) == next_last_point(opt_point(old(self).last_point), cmd@),
    {
        match cmd {
            CRDTCommand::BlockFinished(p) => {
                self.last_point = Some(p);
            },
            _ => {},
        }
        self.ops_count = self.ops_count.saturating_add(1);
    }

    pub fn build_cursor(&self) -> (r: Cursor)
        ensures
            opt_point(r.last_point) == opt_point(self.last_point),
    {
        Cursor { last_point: match &self.last_point {
            Some(p) => Some(p.copy()),
            None => None,
        } }
    }
}

} // verus!
