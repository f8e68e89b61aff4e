//! The storage stage: sinks that apply the command stream, and the cursor
//! each exposes for resuming the chain.
use vstd::prelude::*;

pub mod postgres;
pub mod skip;

use crate::model::{Point, opt_point};

verus! {

#[derive(Clone, Debug, PartialEq, Eq)]
pub enum Config {
    Skip(skip::Config),
    Postgres(postgres::Config),
}

/// A running sink.
#[derive(Clone, Debug, PartialEq, Eq)]
pub enum Sink {
    Skip(skip::Worker),
    Postgres(postgres::Worker),
}

impl Config {
    pub fn plugin(self) -> (r: Sink)
        ensures
            match (self, r) {
                (Config::Skip(_), Sink::Skip(w)) => w.ops_count == 0 && w.last_point is None,
                (Config::Postgres(c), Sink::Postgres(w)) => w.config == c && w.applied == 0
                    && w.database@.cursor.len() == 0 && w.database@.rows.len() == 0,
                _ => false,
            },
    {
        match self {
            Config::Skip(c) => Sink::Skip(c.bootstrapper()),
            Config::Postgres(c) => Sink::Postgres(c.bootstrapper()),
        }
    }
}

#[derive(Clone, Debug, PartialEq, Eq)]
pub enum Cursor {
    Skip(skip::Cursor),
    Postgres(postgres::Cursor),
}

impl Cursor {
    /// The point to resume the chain from.
    pub fn last_point(&self) -> (r: Option<Point>)
        ensures
            opt_point(r) == match self {
                Cursor::Skip(c) => opt_point(c.last_point),
                Cursor::Postgres(c) => match postgres::latest(postgres::cursor_model(c.rows@)) {
                    Some(e) => postgres::entry_point(e),
                    None => None,
                },
            },
    {
        match self {
            Cursor::Skip(c) => c.last_point(),
            Cursor::Postgres(c) => c.last_point(),
        }
    }
}

} // verus!
