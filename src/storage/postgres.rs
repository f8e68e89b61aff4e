//! The durable relational sink: the `cursor` and `voting_power` tables and
//! the effect of each command on them.
use vstd::prelude::*;
use crate::hexfmt::{hex_of, hex_encode, hex_decode, unhex, lemma_unhex_hex_of};
use crate::pipeline::PortModel;
use crate::reducers::is_mutation;
use crate::model::{CRDTCommand, CommandModel, Point, PointModel, AddressModel, opt_point};

verus! {

#[derive(Clone, Debug, PartialEq, Eq)]
pub struct Config {
    pub connection_params: String,
}

/// A row of the `cursor` table: a block applied, with its hash in hex.
#[derive(Clone, Debug, PartialEq, Eq)]
pub struct CursorRow {
    pub slot: u64,
    pub hash: String,
}

pub struct CursorEntry {
    pub slot: u64,
    pub hash: Seq<char>,
}

impl View for CursorRow {
    type V = CursorEntry;

    open spec fn view(&self) -> CursorEntry {
        CursorEntry { slot: self.slot, hash: self.hash@ }
    }
}

/// A row of the `voting_power` table. `spending` and `staking` are the hex
/// of the owner's payment and delegation key hashes; `token` is the hex of
/// the asset name, empty for lovelace.
#[derive(Clone, Debug, PartialEq, Eq)]
pub struct VotingPowerRow {
    pub spending: String,
    pub staking: String,
    pub policy: String,
    pub token: String,
    pub amount: i64,
    pub created_slot: u64,
    pub tx_id: String,
    pub tx_idx: u64,
    pub spent_slot: Option<u64>,
}

pub struct RowModel {
    pub spending: Seq<char>,
    pub staking: Seq<char>,
    pub policy: Seq<char>,
    pub token: Seq<char>,
    pub amount: i64,
    pub created_slot: u64,
    pub tx_id: Seq<char>,
    pub tx_idx: u64,
    pub spent_slot: Option<u64>,
}

impl View for VotingPowerRow {
    type V = RowModel;

    open spec fn view(&self) -> RowModel {
        RowModel {
            spending: self.spending@,
            staking: self.staking@,
            policy: self.policy@,
            token: self.token@,
            amount: self.amount,
            created_slot: self.created_slot,
            tx_id: self.tx_id@,
            tx_idx: self.tx_idx,
            spent_slot: self.spent_slot,
        }
    }
}

impl VotingPowerRow {
    fn copy_with_spent(&self, spent_slot: Option<u64>) -> (r: VotingPowerRow)
        ensures
            r@ == (RowModel { spent_slot, ..self@ }),
    {
        VotingPowerRow {
            spending: self.spending.clone(),
            staking: self.staking.clone(),
            policy: self.policy.clone(),
            token: self.token.clone(),
            amount: self.amount,
            created_slot: self.created_slot,
            tx_id: self.tx_id.clone(),
            tx_idx: self.tx_idx,
            spent_slot,
        }
    }
}

/// The `cursor` table: the points of the blocks applied.
#[derive(Clone, Debug, PartialEq, Eq)]
pub struct Cursor {
    pub rows: Vec<CursorRow>,
}

/// The two tables, without row ids.
pub struct DbModel {
    pub cursor: Seq<CursorEntry>,
    pub rows: Seq<RowModel>,
}

#[derive(Clone, Debug, PartialEq, Eq)]
pub struct Database {
    pub cursor: Cursor,
    pub voting_power: Vec<VotingPowerRow>,
}

impl View for Database {
    type V = DbModel;

    open spec fn view(&self) -> DbModel {
        DbModel {
            cursor: self.cursor.rows@.map_values(|r: CursorRow| r@),
            rows: self.voting_power@.map_values(|r: VotingPowerRow| r@),
        }
    }
}

/// Why a command could not be applied; each is a broken invariant of the
/// command stream.
#[derive(Clone, Copy, Debug, PartialEq, Eq, Structural)]
pub enum ApplyError {
    /// A record is created at `Point::Origin`.
    CreatedAtOrigin,
    /// A record is created at a slot with no cursor row (the foreign key).
    MissingCursor,
    /// An amount does not fit in the signed 64-bit column.
    AmountOutOfRange,
}

/// The slot that a command's point stands for; genesis counts as slot 0.
pub open spec fn point_slot(p: PointModel) -> u64 {
    match p {
        PointModel::Origin => 0,
        PointModel::Specific(s, _) => s,
    }
}

pub open spec fn has_slot(c: Seq<CursorEntry>, s: u64) -> bool {
    exists|i: int| 0 <= i < c.len() && (#[trigger] c[i]).slot == s
}

/// The cursor rows whose slot is not `s`.
pub open spec fn without_slot(c: Seq<CursorEntry>, s: u64) -> Seq<CursorEntry>
    decreases c.len(),
{
    if c.len() == 0 {
        c
    } else if c.last().slot == s {
        without_slot(c.drop_last(), s)
    } else {
        without_slot(c.drop_last(), s).push(c.last())
    }
}

/// The cursor rows at or before slot `s`.
pub open spec fn cursor_upto(c: Seq<CursorEntry>, s: u64) -> Seq<CursorEntry>
    decreases c.len(),
{
    if c.len() == 0 {
        c
    } else if c.last().slot <= s {
        cursor_upto(c.drop_last(), s).push(c.last())
    } else {
        cursor_upto(c.drop_last(), s)
    }
}

/// The row as it is after rolling back to slot `s`: a spend after `s` undone.
pub open spec fn unspend_after(r: RowModel, s: u64) -> RowModel {
    match r.spent_slot {
        Some(t) if t > s => RowModel { spent_slot: None, ..r },
        _ => r,
    }
}

/// The rows created at or before slot `s`, with spends after `s` undone.
pub open spec fn rows_upto(rows: Seq<RowModel>, s: u64) -> Seq<RowModel>
    decreases rows.len(),
{
    if rows.len() == 0 {
        rows
    } else if rows.last().created_slot <= s {
        rows_upto(rows.drop_last(), s).push(unspend_after(rows.last(), s))
    } else {
        rows_upto(rows.drop_last(), s)
    }
}

/// The row as it is after a spend of `(tx_id, tx_idx)` at `slot`.
pub open spec fn spend_row(r: RowModel, tx_id: Seq<char>, tx_idx: u64, slot: u64) -> RowModel {
    if r.tx_id == tx_id && r.tx_idx == tx_idx {
        RowModel { spent_slot: Some(slot), ..r }
    } else {
        r
    }
}

pub open spec fn new_row(owner: AddressModel, policy: Seq<char>, token: Seq<char>, amount: i64, slot: u64, tx_id: Seq<char>, tx_idx: u64) -> RowModel {
    RowModel {
        spending: hex_of(owner.payment),
        staking: hex_of(owner.delegation),
        policy,
        token,
        amount,
        created_slot: slot,
        tx_id,
        tx_idx,
        spent_slot: None,
    }
}

/// Inserting a row created at `point`: refused at genesis and where the
/// cursor has no row for its slot.
pub open spec fn insert_row(db: DbModel, point: PointModel, row: RowModel) -> Result<DbModel, ApplyError> {
    match point {
        PointModel::Origin => Err(ApplyError::CreatedAtOrigin),
        PointModel::Specific(s, _) => if !has_slot(db.cursor, s) {
            Err(ApplyError::MissingCursor)
        } else {
            Ok(DbModel { rows: db.rows.push(row), ..db })
        },
    }
}

/// The effect of one command on the tables.
pub open spec fn apply_spec(db: DbModel, c: CommandModel) -> Result<DbModel, ApplyError> {
    match c {
        CommandModel::BlockStarting(PointModel::Origin) => Ok(db),
        CommandModel::BlockStarting(PointModel::Specific(s, h)) => Ok(DbModel {
            cursor: without_slot(db.cursor, s).push(CursorEntry { slot: s, hash: hex_of(h) }),
            ..db
        }),
        CommandModel::BlockFinished(_) => Ok(db),
        CommandModel::VotingPowerCreated { owner, policy, token, amount, point, tx_id, tx_idx } =>
            if amount > i64::MAX {
                Err(ApplyError::AmountOutOfRange)
            } else {
                insert_row(db, point, new_row(owner, policy, token, amount as i64, point_slot(point), tx_id, tx_idx))
            },
        CommandModel::VotingPowerChange { address, policy, delta, point } =>
            insert_row(db, point, new_row(address, policy, seq![], delta, point_slot(point), seq![], 0)),
        CommandModel::VotingPowerSpent { tx_id, tx_idx, point } => Ok(DbModel {
            rows: db.rows.map_values(|r: RowModel| spend_row(r, tx_id, tx_idx, point_slot(point))),
            ..db
        }),
        CommandModel::RollBack(PointModel::Origin) => Ok(DbModel { cursor: seq![], rows: seq![] }),
        CommandModel::RollBack(PointModel::Specific(s, _)) => Ok(DbModel {
            cursor: cursor_upto(db.cursor, s),
            rows: rows_upto(db.rows, s),
        }),
    }
}

/// The effect of a command stream, stopping at the first refused command.
pub open spec fn apply_all(db: DbModel, cmds: Seq<CommandModel>) -> Result<DbModel, ApplyError>
    decreases cmds.len(),
{
    if cmds.len() == 0 {
        Ok(db)
    } else {
        match apply_all(db, cmds.drop_last()) {
            Ok(d) => apply_spec(d, cmds.last()),
            Err(e) => Err(e),
        }
    }
}

pub open spec fn cursor_model(rows: Seq<CursorRow>) -> Seq<CursorEntry> {
    rows.map_values(|r: CursorRow| r@)
}

pub open spec fn rows_model(rows: Seq<VotingPowerRow>) -> Seq<RowModel> {
    rows.map_values(|r: VotingPowerRow| r@)
}

/// The row of the latest block: the one with the greatest slot (the first
/// of them where several share it).
pub open spec fn latest(c: Seq<CursorEntry>) -> Option<CursorEntry>
    decreases c.len(),
{
    if c.len() == 0 {
        None
    } else {
        match latest(c.drop_last()) {
            Some(e) => if c.last().slot > e.slot {
                Some(c.last())
            } else {
                Some(e)
            },
            None => Some(c.last()),
        }
    }
}

/// The point that a cursor row records, where its hash reads as hex.
pub open spec fn entry_point(e: CursorEntry) -> Option<PointModel> {
    match unhex(e.hash) {
        Some(h) => Some(PointModel::Specific(e.slot, h)),
        None => None,
    }
}

impl Cursor {
    /// The latest row, as a result of at most one row.
    pub fn latest_rows(&self) -> (r: Vec<CursorRow>)
        ensures
            cursor_model(r@) == (match latest(cursor_model(self.rows@)) {
                Some(e) => seq![e],
                None => seq![],
            }),
    {
        let ghost m = cursor_model(self.rows@);
        let mut best: Option<usize> = None;
        let mut i: usize = 0;
        while i < self.rows.len()
            invariant
                i <= self.rows@.len(),
                m == cursor_model(self.rows@),
                match best {
                    Some(b) => b < i && latest(m.take(i as int)) == Some(m[b as int]),
                    None => i == 0,
                },
            decreases self.rows.len() - i,
        {
            assert(m.take(i + 1).drop_last() =~= m.take(i as int));
            assert(m.take(i + 1).last() == m[i as int]);
            match best {
                Some(b) => {
                    if self.rows[i].slot > self.rows[b].slot {
                        best = Some(i);
                    }
                },
                None => {
                    best = Some(i);
                },
            }
            i += 1;
        }
        assert(m.take(i as int) =~= m);
        let mut r: Vec<CursorRow> = Vec::new();
        match best {
            Some(b) => {
                r.push(CursorRow { slot: self.rows[b].slot, hash: self.rows[b].hash.clone() });
                assert(cursor_model(r@) =~= seq![m[b as int]]);
            },
            None => {
                assert(cursor_model(r@) =~= seq![]);
            },
        }
        r
    }

    /// The point that the first row of a query result records.
    pub fn rows_to_point(res: Vec<CursorRow>) -> (r: Option<Point>)
        ensures
            opt_point(r) == (if res@.len() == 0 {
                None
            } else {
                entry_point(res@[0]@)
            }),
    {
        if res.len() == 0 {
            return None;
        }
        let row = &res[0];
        match hex_decode(row.hash.as_str()) {
            Ok(h) => Some(Point::Specific(row.slot, h)),
            Err(_) => None,
        }
    }

    /// The point of the latest block applied.
    pub fn last_point(&self) -> (r: Option<Point>)
        ensures
            opt_point(r) == (match latest(cursor_model(self.rows@)) {
                Some(e) => entry_point(e),
                None => None,
            }),
    {
        let rows = self.latest_rows();
        assert(cursor_model(rows@).len() == rows@.len());
        proof {
            if rows@.len() > 0 {
                assert(cursor_model(rows@)[0] == rows@[0]@);
            }
        }
        Self::rows_to_point(rows)
    }

    fn has_slot_exec(&self, s: u64) -> (r: bool)
        ensures
            r == has_slot(cursor_model(self.rows@), s),
    {
        let mut i: usize = 0;
        while i < self.rows.len()
            invariant
                i <= self.rows@.len(),
                forall|j: int| 0 <= j < i ==> self.rows@[j].slot != s,
            decreases self.rows.len() - i,
        {
            if self.rows[i].slot == s {
                assert(cursor_model(self.rows@)[i as int].slot == s);
                return true;
            }
            i += 1;
        }
        assert forall|j: int| 0 <= j < cursor_model(self.rows@).len() implies (#[trigger] cursor_model(self.rows@)[j]).slot != s by {
            assert(cursor_model(self.rows@)[j] == self.rows@[j]@);
        }
        false
    }

    /// Replaces the row for slot `s`, if any, by `(s, hash)`.
    fn upsert(&mut self, s: u64, hash: String)
        ensures
            cursor_model(final(self).rows@) == without_slot(cursor_model(old(self).rows@), s).push(
                CursorEntry { slot: s, hash: hash@ },
            ),
    {
        let ghost m = cursor_model(self.rows@);
        let mut kept: Vec<CursorRow> = Vec::new();
        let mut i: usize = 0;
        while i < self.rows.len()
            invariant
                i <= self.rows@.len(),
                m == cursor_model(self.rows@),
                cursor_model(kept@) == without_slot(m.take(i as int), s),
            decreases self.rows.len() - i,
        {
            assert(m.take(i + 1).drop_last() =~= m.take(i as int));
            assert(m.take(i + 1).last() == self.rows@[i as int]@);
            if self.rows[i].slot != s {
                let row = CursorRow { slot: self.rows[i].slot, hash: self.rows[i].hash.clone() };
                kept.push(row);
            }
            assert(cursor_model(kept@) =~= without_slot(m.take(i + 1), s));
            i += 1;
        }
        assert(m.take(i as int) =~= m);
        kept.push(CursorRow { slot: s, hash });
        assert(cursor_model(kept@) =~= without_slot(m, s).push(CursorEntry { slot: s, hash: hash@ }));
        self.rows = kept;
    }

    /// Deletes the rows after slot `s`.
    fn delete_after(&mut self, s: u64)
        ensures
            cursor_model(final(self).rows@) == cursor_upto(cursor_model(old(self).rows@), s),
    {
        let ghost m = cursor_model(self.rows@);
        let mut kept: Vec<CursorRow> = Vec::new();
        let mut i: usize = 0;
        while i < self.rows.len()
            invariant
                i <= self.rows@.len(),
                m == cursor_model(self.rows@),
                cursor_model(kept@) == cursor_upto(m.take(i as int), s),
            decreases self.rows.len() - i,
        {
            assert(m.take(i + 1).drop_last() =~= m.take(i as int));
            assert(m.take(i + 1).last() == self.rows@[i as int]@);
            if self.rows[i].slot <= s {
                let row = CursorRow { slot: self.rows[i].slot, hash: self.rows[i].hash.clone() };
                kept.push(row);
            }
            assert(cursor_model(kept@) =~= cursor_upto(m.take(i + 1), s));
            i += 1;
        }
        assert(m.take(i as int) =~= m);
        self.rows = kept;
    }
}

impl Database {
    pub fn new() -> (r: Database)
        ensures
            r@.cursor.len() == 0,
            r@.rows.len() == 0,
    {
        Database { cursor: Cursor { rows: Vec::new() }, voting_power: Vec::new() }
    }

    fn insert(&mut self, point: &Point, row: VotingPowerRow) -> (r: Result<(), ApplyError>)
        ensures
            match insert_row(old(self)@, point@, row@) {
                Ok(d) => r is Ok && final(self)@ == d,
                Err(e) => r == Err::<(), ApplyError>(e) && final(self)@ == old(self)@,
            },
    {
        match point {
            Point::Origin => Err(ApplyError::CreatedAtOrigin),
            Point::Specific(s, _) => {
                if !self.cursor.has_slot_exec(*s) {
                    return Err(ApplyError::MissingCursor);
                }
                let ghost row_model = row@;
                self.voting_power.push(row);
                assert(self@.rows =~= old(self)@.rows.push(row_model));
                assert(self@.cursor =~= old(self)@.cursor);
                Ok(())
            },
        }
    }

    /// Marks every row of `(tx_id, tx_idx)` spent at `slot`.
    fn spend(&mut self, tx_id: &String, tx_idx: u64, slot: u64)
        ensures
            final(self)@ == (DbModel {
                rows: old(self)@.rows.map_values(|r: RowModel| spend_row(r, tx_id@, tx_idx, slot)),
                ..old(self)@
            }),
    {
        let ghost m = old(self)@.rows;
        let mut i: usize = 0;
        while i < self.voting_power.len()
            invariant
                i <= self.voting_power@.len(),
                self.voting_power@.len() == m.len(),
                self.cursor == old(self).cursor,
                forall|j: int| 0 <= j < i ==> #[trigger] self.voting_power@[j]@ == spend_row(m[j], tx_id@, tx_idx, slot),
                forall|j: int| i <= j < m.len() ==> #[trigger] self.voting_power@[j]@ == m[j],
            decreases self.voting_power.len() - i,
        {
            if self.voting_power[i].tx_id == *tx_id && self.voting_power[i].tx_idx == tx_idx {
                let row = self.voting_power[i].copy_with_spent(Some(slot));
                self.voting_power.set(i, row);
            }
            i += 1;
        }
        assert(self@.rows =~= m.map_values(|r: RowModel| spend_row(r, tx_id@, tx_idx, slot)));
    }

    /// Deletes the rows created after `s` and undoes the spends after it.
    fn rollback_rows(&mut self, s: u64)
        ensures
            final(self)@ == (DbModel { rows: rows_upto(old(self)@.rows, s), ..old(self)@ }),
    {
        let ghost m = old(self)@.rows;
        let mut kept: Vec<VotingPowerRow> = Vec::new();
        let mut i: usize = 0;
        while i < self.voting_power.len()
            invariant
                i <= self.voting_power@.len(),
                m == rows_model(self.voting_power@),
                self.cursor == old(self).cursor,
                rows_model(kept@) == rows_upto(m.take(i as int), s),
            decreases self.voting_power.len() - i,
        {
            assert(m.take(i + 1).drop_last() =~= m.take(i as int));
            assert(m.take(i + 1).last() == self.voting_power@[i as int]@);
            let row = &self.voting_power[i];
            if row.created_slot <= s {
                let spent = match row.spent_slot {
                    Some(t) => if t > s {
                        None
                    } else {
                        Some(t)
                    },
                    None => None,
                };
                kept.push(row.copy_with_spent(spent));
            }
            assert(rows_model(kept@) =~= rows_upto(m.take(i + 1), s));
            i += 1;
        }
        assert(m.take(i as int) =~= m);
        self.voting_power = kept;
    }

    /// Applies one command to the tables; a refused command changes nothing.
    pub fn apply(&mut self, cmd: CRDTCommand) -> (r: Result<(), ApplyError>)
        ensures
            match apply_spec(old(self)@, cmd@) {
                Ok(d) => r is Ok && final(self)@ == d,
                Err(e) => r == Err::<(), ApplyError>(e) && final(self)@ == old(self)@,
            },
    {
        match cmd {
            CRDTCommand::BlockStarting(Point::Origin) => Ok(()),
            CRDTCommand::BlockStarting(Point::Specific(s, h)) => {
                let hash = hex_encode(h.as_slice());
                self.cursor.upsert(s, hash);
                Ok(())
            },
            CRDTCommand::BlockFinished(_) => Ok(()),
            CRDTCommand::VotingPowerCreated { owner, policy, token, amount, point, tx_id, tx_idx } => {
                if amount > i64::MAX as u64 {
                    return Err(ApplyError::AmountOutOfRange);
                }
                let slot = match &point {
                    Point::Origin => 0,
                    Point::Specific(s, _) => *s,
                };
                let row = VotingPowerRow {
                    spending: hex_encode(owner.payment.as_slice()),
                    staking: hex_encode(owner.delegation.as_slice()),
                    policy,
                    token,
                    amount: amount as i64,
                    created_slot: slot,
                    tx_id,
                    tx_idx,
                    spent_slot: None,
                };
                self.insert(&point, row)
            },
            CRDTCommand::VotingPowerChange { address, policy, delta, point } => {
                let slot = match &point {
                    Point::Origin => 0,
                    Point::Specific(s, _) => *s,
                };
                let row = VotingPowerRow {
                    spending: hex_encode(address.payment.as_slice()),
                    staking: hex_encode(address.delegation.as_slice()),
                    policy,
                    token: String::new(),
                    amount: delta,
                    created_slot: slot,
                    tx_id: String::new(),
                    tx_idx: 0,
                    spent_slot: None,
                };
                self.insert(&point, row)
            },
            CRDTCommand::VotingPowerSpent { tx_id, tx_idx, point } => {
                let slot = match &point {
                    Point::Origin => 0,
                    Point::Specific(s, _) => *s,
                };
                self.spend(&tx_id, tx_idx, slot);
                Ok(())
            },
            CRDTCommand::RollBack(Point::Origin) => {
                self.cursor = Cursor { rows: Vec::new() };
                self.voting_power = Vec::new();
                assert(self@.cursor =~= seq![]);
                assert(self@.rows =~= seq![]);
                Ok(())
            },
            CRDTCommand::RollBack(Point::Specific(s, _)) => {
                self.cursor.delete_after(s);
                self.rollback_rows(s);
                Ok(())
            },
        }
    }
}

impl Config {
    pub fn bootstrapper(self) -> (r: Worker)
        ensures
            r.database@.cursor.len() == 0,
            r.database@.rows.len() == 0,
            r.applied == 0,
            r.ops_count == 0,
            r.config == self,
    {
        Worker { config: self, database: Database::new(), applied: 0, ops_count: 0 }
    }
}

/// The durable sink. `applied` is the number of messages of the input
/// stream whose effect the tables hold; it is kept with the tables, so a
/// message redelivered after a restart is recognised and not applied twice.
#[derive(Clone, Debug, PartialEq, Eq)]
pub struct Worker {
    pub config: Config,
    pub database: Database,
    pub applied: u64,
    pub ops_count: u64,
}

pub struct WorkerModel {
    pub db: DbModel,
    pub applied: u64,
    pub ops_count: u64,
}

impl View for Worker {
    type V = WorkerModel;

    open spec fn view(&self) -> WorkerModel {
        WorkerModel { db: self.database@, applied: self.applied, ops_count: self.ops_count }
    }
}

/// Why the durable sink stopped.
#[derive(Clone, Copy, Debug, PartialEq, Eq, Structural)]
pub enum WorkError {
    /// The command broke an invariant of the stream.
    Apply(ApplyError),
    /// The message comes after one that was never applied.
    Gap,
    /// The message counter is exhausted.
    Exhausted,
}

/// The effect of handling message number `seq` of the stream, `c`.
pub open spec fn work_spec(w: WorkerModel, seq: u64, c: CommandModel) -> Result<WorkerModel, WorkError> {
    if seq < w.applied {
        Ok(w)
    } else if seq > w.applied {
        Err(WorkError::Gap)
    } else if w.applied == u64::MAX || w.ops_count == u64::MAX {
        Err(WorkError::Exhausted)
    } else {
        match apply_spec(w.db, c) {
            Ok(d) => Ok(WorkerModel { db: d, applied: (w.applied + 1) as u64, ops_count: (w.ops_count + 1) as u64 }),
            Err(e) => Err(WorkError::Apply(e)),
        }
    }
}

impl Worker {
    /// Handles message number `seq` of the stream: applies it where it is
    /// the next one, passes over it where its effect is already held.
    pub fn work(&mut self, seq: u64, cmd: CRDTCommand) -> (r: Result<(), WorkError>)
        ensures
            final(self).config == old(self).config,
            match work_spec(old(self)@, seq, cmd@) {
                Ok(w) => r is Ok && final(self)@ == w,
                Err(e) => r == Err::<(), WorkError>(e) && final(self)@ == old(self)@,
            },
    {
        if seq < self.applied {
            return Ok(());
        }
        if seq > self.applied {
            return Err(WorkError::Gap);
        }
        if self.applied == u64::MAX || self.ops_count == u64::MAX {
            return Err(WorkError::Exhausted);
        }
        match self.database.apply(cmd) {
            Ok(()) => {
                self.applied = self.applied + 1;
                self.ops_count = self.ops_count + 1;
                Ok(())
            },
            Err(e) => Err(WorkError::Apply(e)),
        }
    }

    pub fn build_cursor(&self) -> (r: Cursor)
        ensures
            cursor_model(r.rows@) == self.database@.cursor,
    {
        let src = &self.database.cursor.rows;
        let ghost m = cursor_model(src@);
        let mut rows: Vec<CursorRow> = Vec::new();
        let mut i: usize = 0;
        while i < src.len()
            invariant
                i <= src@.len(),
                m == cursor_model(src@),
                cursor_model(rows@) == m.take(i as int),
            decreases src.len() - i,
        {
            assert(m.take(i + 1).drop_last() =~= m.take(i as int));
            assert(m.take(i + 1).last() == src@[i as int]@);
            rows.push(CursorRow { slot: src[i].slot, hash: src[i].hash.clone() });
            assert(cursor_model(rows@) =~= m.take(i + 1));
            i += 1;
        }
        assert(m.take(i as int) =~= m);
        Cursor { rows }
    }
}


proof fn lemma_apply_all_concat(db: DbModel, a: Seq<CommandModel>, b: Seq<CommandModel>)
    ensures
        apply_all(db, a + b) == match apply_all(db, a) {
            Ok(d) => apply_all(d, b),
            Err(e) => Err(e),
        },
    decreases b.len(),
{
    if b.len() == 0 {
        assert(a + b =~= a);
    } else {
        assert((a + b).drop_last() =~= a + b.drop_last());
        assert((a + b).last() == b.last());
        lemma_apply_all_concat(db, a, b.drop_last());
    }
}

proof fn lemma_apply_one(db: DbModel, c: CommandModel)
    ensures
        apply_all(db, seq![c]) == apply_spec(db, c),
{
    assert(seq![c].drop_last() =~= Seq::<CommandModel>::empty());
    assert(apply_all(db, Seq::<CommandModel>::empty()) == Ok::<DbModel, ApplyError>(db));
    assert(seq![c].last() == c);
}

pub open spec fn slots_below(c: Seq<CursorEntry>, s: u64) -> bool {
    forall|i: int| 0 <= i < c.len() ==> (#[trigger] c[i]).slot < s
}

pub open spec fn slots_upto(c: Seq<CursorEntry>, s: u64) -> bool {
    forall|i: int| 0 <= i < c.len() ==> (#[trigger] c[i]).slot <= s
}

proof fn lemma_without_slot_below(c: Seq<CursorEntry>, s: u64, t: u64)
    requires
        slots_below(c, t),
    ensures
        slots_below(without_slot(c, s), t),
    decreases c.len(),
{
    if c.len() > 0 {
        assert(slots_below(c.drop_last(), t)) by {
            assert forall|i: int| 0 <= i < c.drop_last().len() implies (#[trigger] c.drop_last()[i]).slot < t by {
                assert(c.drop_last()[i] == c[i]);
            }
        }
        lemma_without_slot_below(c.drop_last(), s, t);
        let w = without_slot(c.drop_last(), s);
        if c.last().slot != s {
            assert forall|i: int| 0 <= i < w.push(c.last()).len() implies (#[trigger] w.push(c.last())[i]).slot < t by {
                if i < w.len() {
                    assert(w.push(c.last())[i] == w[i]);
                }
            }
        }
    }
}

proof fn lemma_latest_below(c: Seq<CursorEntry>, t: u64)
    requires
        slots_below(c, t),
    ensures
        latest(c) matches Some(e) ==> e.slot < t,
    decreases c.len(),
{
    if c.len() > 0 {
        assert(slots_below(c.drop_last(), t)) by {
            assert forall|i: int| 0 <= i < c.drop_last().len() implies (#[trigger] c.drop_last()[i]).slot < t by {
                assert(c.drop_last()[i] == c[i]);
            }
        }
        lemma_latest_below(c.drop_last(), t);
        assert(c[c.len() - 1].slot < t);
    }
}

proof fn lemma_mutations_keep_cursor(db: DbModel, mid: Seq<CommandModel>)
    requires
        forall|i: int| 0 <= i < mid.len() ==> is_mutation(#[trigger] mid[i]),
    ensures
        apply_all(db, mid) matches Ok(d) ==> d.cursor == db.cursor,
    decreases mid.len(),
{
    if mid.len() > 0 {
        assert forall|i: int| 0 <= i < mid.drop_last().len() implies is_mutation(#[trigger] mid.drop_last()[i]) by {
            assert(mid.drop_last()[i] == mid[i]);
        }
        lemma_mutations_keep_cursor(db, mid.drop_last());
        assert(is_mutation(mid[mid.len() - 1]));
    }
}

/// The commands of one block: its opening, its records, its closing.
pub open spec fn block_stream(p: PointModel, mid: Seq<CommandModel>) -> Seq<CommandModel> {
    seq![CommandModel::BlockStarting(p)] + mid + seq![CommandModel::BlockFinished(p)]
}

proof fn lemma_block_stream(db: DbModel, p: PointModel, mid: Seq<CommandModel>)
    requires
        forall|i: int| 0 <= i < mid.len() ==> is_mutation(#[trigger] mid[i]),
    ensures
        apply_all(db, block_stream(p, mid)) matches Ok(d) ==> {
            &&& apply_spec(db, CommandModel::BlockStarting(p)) matches Ok(d1)
            &&& d.cursor == d1.cursor
        },
{
    let start = seq![CommandModel::BlockStarting(p)];
    let fin = seq![CommandModel::BlockFinished(p)];
    lemma_apply_all_concat(db, start + mid, fin);
    lemma_apply_all_concat(db, start, mid);
    lemma_apply_one(db, CommandModel::BlockStarting(p));
    if let Ok(d1) = apply_spec(db, CommandModel::BlockStarting(p)) {
        lemma_mutations_keep_cursor(d1, mid);
        if let Ok(d2) = apply_all(d1, mid) {
            lemma_apply_one(d2, CommandModel::BlockFinished(p));
        }
    }
}

/// A block started at genesis writes no cursor row: the tables are unchanged.
pub proof fn lemma_origin_start_no_cursor(db: DbModel)
    ensures
        apply_spec(db, CommandModel::BlockStarting(PointModel::Origin)) == Ok::<DbModel, ApplyError>(db),
{
}

/// After a block's stream is applied to tables that hold only earlier
/// blocks, the cursor's latest row records that block's point, and no row
/// is later than it; so a clean forward sequence of blocks leaves the last
/// point at the point of its last block.
pub proof fn lemma_cursor_after_block(db: DbModel, s: u64, h: Seq<u8>, mid: Seq<CommandModel>)
    requires
        slots_below(db.cursor, s),
        forall|i: int| 0 <= i < mid.len() ==> is_mutation(#[trigger] mid[i]),
    ensures
        apply_all(db, block_stream(PointModel::Specific(s, h), mid)) matches Ok(d) ==> {
            &&& latest(d.cursor) matches Some(e)
            &&& entry_point(e) == Some(PointModel::Specific(s, h))
            &&& slots_upto(d.cursor, s)
        },
{
    let p = PointModel::Specific(s, h);
    lemma_block_stream(db, p, mid);
    let w = without_slot(db.cursor, s);
    let e = CursorEntry { slot: s, hash: hex_of(h) };
    lemma_without_slot_below(db.cursor, s, s);
    lemma_latest_below(w, s);
    assert(w.push(e).drop_last() =~= w);
    lemma_unhex_hex_of(h);
    assert forall|i: int| 0 <= i < w.push(e).len() implies (#[trigger] w.push(e)[i]).slot <= s by {
        if i < w.len() {
            assert(w.push(e)[i] == w[i]);
        }
    }
}

proof fn lemma_without_slot_idempotent(c: Seq<CursorEntry>, s: u64)
    ensures
        without_slot(without_slot(c, s), s) == without_slot(c, s),
    decreases c.len(),
{
    if c.len() > 0 {
        lemma_without_slot_idempotent(c.drop_last(), s);
        let w = without_slot(c.drop_last(), s);
        if c.last().slot != s {
            assert(w.push(c.last()).drop_last() =~= w);
        }
    }
}

/// A message redelivered after a crash leaves the sink as the single
/// delivery did: the port hands out the same message again, and the sink,
/// which recorded it as applied, passes over it.
pub proof fn lemma_replay_after_crash(port: PortModel, w: WorkerModel, c: CommandModel)
    requires
        port.wf(),
        port.in_flight is None,
        port.committed < port.available,
        w.applied == port.committed,
    ensures
        port.recv().1 == Some(port.committed),
        port.recv().0.restart().recv().1 == Some(port.committed),
        work_spec(w, port.committed, c) matches Ok(w1) ==> work_spec(w1, port.committed, c) == Ok::<WorkerModel, WorkError>(w1),
{
}


/// The tables hold nothing after slot `s`.
pub open spec fn settled_upto(db: DbModel, s: u64) -> bool {
    &&& slots_upto(db.cursor, s)
    &&& forall|j: int| 0 <= j < db.rows.len() ==> (#[trigger] db.rows[j]).created_slot <= s
        && (db.rows[j].spent_slot matches Some(t) ==> t <= s)
}

/// A command of a block later than slot `s`.
pub open spec fn after_slot(c: CommandModel, s: u64) -> bool {
    let p = match c {
        CommandModel::BlockStarting(p) => p,
        CommandModel::BlockFinished(p) => p,
        CommandModel::VotingPowerCreated { point, .. } => point,
        CommandModel::VotingPowerChange { point, .. } => point,
        CommandModel::VotingPowerSpent { point, .. } => point,
        CommandModel::RollBack(_) => PointModel::Origin,
    };
    p matches PointModel::Specific(t, _) && t > s
}

/// The command spends no row of `db` that is already spent.
pub open spec fn spends_unspent(db: DbModel, c: CommandModel) -> bool {
    match c {
        CommandModel::VotingPowerSpent { tx_id, tx_idx, .. } => forall|j: int|
            0 <= j < db.rows.len() && (#[trigger] db.rows[j]).tx_id == tx_id && db.rows[j].tx_idx == tx_idx
                ==> db.rows[j].spent_slot is None,
        _ => true,
    }
}

/// `d` came from `db` by commands of blocks later than `s`: rolled back to
/// `s`, the two agree.
spec fn evolved(db: DbModel, d: DbModel, s: u64) -> bool {
    &&& cursor_upto(d.cursor, s) == cursor_upto(db.cursor, s)
    &&& d.rows.len() >= db.rows.len()
    &&& forall|j: int| 0 <= j < db.rows.len() ==> unspend_after(#[trigger] d.rows[j], s) == unspend_after(db.rows[j], s)
    &&& forall|j: int| db.rows.len() <= j < d.rows.len() ==> (#[trigger] d.rows[j]).created_slot > s
}

proof fn lemma_cursor_upto_without_later(c: Seq<CursorEntry>, t: u64, s: u64)
    requires
        t > s,
    ensures
        cursor_upto(without_slot(c, t), s) == cursor_upto(c, s),
    decreases c.len(),
{
    if c.len() > 0 {
        lemma_cursor_upto_without_later(c.drop_last(), t, s);
        let w = without_slot(c.drop_last(), t);
        if c.last().slot != t {
            assert(w.push(c.last()).drop_last() =~= w);
        }
    }
}

proof fn lemma_evolved_step(db: DbModel, d: DbModel, c: CommandModel, s: u64)
    requires
        evolved(db, d, s),
        after_slot(c, s),
        spends_unspent(db, c),
    ensures
        apply_spec(d, c) matches Ok(d2) ==> evolved(db, d2, s),
{
    match c {
        CommandModel::BlockStarting(PointModel::Specific(t, h)) => {
            let w = without_slot(d.cursor, t);
            let e = CursorEntry { slot: t, hash: hex_of(h) };
            assert(w.push(e).drop_last() =~= w);
            lemma_cursor_upto_without_later(d.cursor, t, s);
        },
        CommandModel::VotingPowerCreated { .. } | CommandModel::VotingPowerChange { .. } => {
            if let Ok(d2) = apply_spec(d, c) {
                assert forall|j: int| 0 <= j < db.rows.len() implies unspend_after(#[trigger] d2.rows[j], s) == unspend_after(db.rows[j], s) by {
                    assert(d2.rows[j] == d.rows[j]);
                }
                assert forall|j: int| db.rows.len() <= j < d2.rows.len() implies (#[trigger] d2.rows[j]).created_slot > s by {
                    if j < d.rows.len() {
                        assert(d2.rows[j] == d.rows[j]);
                    }
                }
            }
        },
        CommandModel::VotingPowerSpent { tx_id, tx_idx, point } => {
            let t = point_slot(point);
            let d2 = DbModel { rows: d.rows.map_values(|r: RowModel| spend_row(r, tx_id, tx_idx, t)), ..d };
            assert forall|j: int| 0 <= j < db.rows.len() implies unspend_after(#[trigger] d2.rows[j], s) == unspend_after(db.rows[j], s) by {
                assert(d2.rows[j] == spend_row(d.rows[j], tx_id, tx_idx, t));
                assert(unspend_after(d.rows[j], s) == unspend_after(db.rows[j], s));
                if d.rows[j].tx_id == tx_id && d.rows[j].tx_idx == tx_idx {
                    assert(db.rows[j].tx_id == tx_id && db.rows[j].tx_idx == tx_idx);
                    assert(db.rows[j].spent_slot is None);
                }
            }
            assert forall|j: int| db.rows.len() <= j < d2.rows.len() implies (#[trigger] d2.rows[j]).created_slot > s by {
                assert(d2.rows[j] == spend_row(d.rows[j], tx_id, tx_idx, t));
            }
        },
        _ => {},
    }
}

proof fn lemma_evolved_all(db: DbModel, later: Seq<CommandModel>, s: u64)
    requires
        forall|i: int| 0 <= i < later.len() ==> after_slot(#[trigger] later[i], s),
        forall|i: int| 0 <= i < later.len() ==> spends_unspent(db, #[trigger] later[i]),
    ensures
        apply_all(db, later) matches Ok(d) ==> evolved(db, d, s),
    decreases later.len(),
{
    if later.len() == 0 {
        assert(evolved(db, db, s));
    } else {
        let prefix = later.drop_last();
        assert forall|i: int| 0 <= i < prefix.len() implies after_slot(#[trigger] prefix[i], s) by {
            assert(prefix[i] == later[i]);
        }
        assert forall|i: int| 0 <= i < prefix.len() implies spends_unspent(db, #[trigger] prefix[i]) by {
            assert(prefix[i] == later[i]);
        }
        lemma_evolved_all(db, prefix, s);
        if let Ok(d) = apply_all(db, prefix) {
            assert(after_slot(later[later.len() - 1], s));
            assert(spends_unspent(db, later[later.len() - 1]));
            lemma_evolved_step(db, d, later.last(), s);
        }
    }
}

proof fn lemma_rows_upto_drop_later(x: Seq<RowModel>, n: int, s: u64)
    requires
        0 <= n <= x.len(),
        forall|j: int| n <= j < x.len() ==> (#[trigger] x[j]).created_slot > s,
    ensures
        rows_upto(x, s) == rows_upto(x.take(n), s),
    decreases x.len(),
{
    if x.len() > n {
        assert(x.drop_last().take(n) =~= x.take(n));
        assert(x[x.len() - 1].created_slot > s);
        lemma_rows_upto_drop_later(x.drop_last(), n, s);
    } else {
        assert(x.take(n) =~= x);
    }
}

proof fn lemma_rows_upto_agree(a: Seq<RowModel>, b: Seq<RowModel>, s: u64)
    requires
        a.len() == b.len(),
        forall|j: int| 0 <= j < a.len() ==> unspend_after(#[trigger] a[j], s) == unspend_after(b[j], s),
    ensures
        rows_upto(a, s) == rows_upto(b, s),
    decreases a.len(),
{
    if a.len() > 0 {
        assert forall|j: int| 0 <= j < a.drop_last().len() implies unspend_after(#[trigger] a.drop_last()[j], s)
            == unspend_after(b.drop_last()[j], s) by {
            assert(a.drop_last()[j] == a[j]);
            assert(b.drop_last()[j] == b[j]);
        }
        lemma_rows_upto_agree(a.drop_last(), b.drop_last(), s);
        assert(unspend_after(a[a.len() - 1], s) == unspend_after(b[b.len() - 1], s));
    }
}

proof fn lemma_settled_fixed(db: DbModel, s: u64)
    requires
        settled_upto(db, s),
    ensures
        cursor_upto(db.cursor, s) == db.cursor,
        rows_upto(db.rows, s) == db.rows,
{
    lemma_cursor_upto_all(db.cursor, s);
    lemma_rows_upto_all(db.rows, s);
}

proof fn lemma_cursor_upto_all(c: Seq<CursorEntry>, s: u64)
    requires
        slots_upto(c, s),
    ensures
        cursor_upto(c, s) == c,
    decreases c.len(),
{
    if c.len() > 0 {
        assert(slots_upto(c.drop_last(), s)) by {
            assert forall|i: int| 0 <= i < c.drop_last().len() implies (#[trigger] c.drop_last()[i]).slot <= s by {
                assert(c.drop_last()[i] == c[i]);
            }
        }
        lemma_cursor_upto_all(c.drop_last(), s);
        assert(c[c.len() - 1].slot <= s);
        assert(c.drop_last().push(c.last()) =~= c);
    }
}

proof fn lemma_rows_upto_all(rows: Seq<RowModel>, s: u64)
    requires
        forall|j: int| 0 <= j < rows.len() ==> (#[trigger] rows[j]).created_slot <= s
            && (rows[j].spent_slot matches Some(t) ==> t <= s),
    ensures
        rows_upto(rows, s) == rows,
    decreases rows.len(),
{
    if rows.len() > 0 {
        assert forall|j: int| 0 <= j < rows.drop_last().len() implies (#[trigger] rows.drop_last()[j]).created_slot <= s
            && (rows.drop_last()[j].spent_slot matches Some(t) ==> t <= s) by {
            assert(rows.drop_last()[j] == rows[j]);
        }
        lemma_rows_upto_all(rows.drop_last(), s);
        let last = rows[rows.len() - 1];
        assert(last.created_slot <= s);
        assert(unspend_after(last, s) == last);
        assert(rows.drop_last().push(rows.last()) =~= rows);
    }
}

/// Rolling back to slot `s` after the commands of later blocks restores the
/// tables as they stood when they held nothing after `s` (row ids aside),
/// provided no later block spends again an output already spent by then.
pub proof fn lemma_rollback_restores(db: DbModel, later: Seq<CommandModel>, s: u64, h: Seq<u8>)
    requires
        settled_upto(db, s),
        forall|i: int| 0 <= i < later.len() ==> after_slot(#[trigger] later[i], s),
        forall|i: int| 0 <= i < later.len() ==> spends_unspent(db, #[trigger] later[i]),
    ensures
        apply_all(db, later.push(CommandModel::RollBack(PointModel::Specific(s, h)))) matches Ok(d) ==> d == db,
{
    let rb = CommandModel::RollBack(PointModel::Specific(s, h));
    assert(later.push(rb).drop_last() =~= later);
    lemma_evolved_all(db, later, s);
    if let Ok(d) = apply_all(db, later) {
        lemma_rows_upto_drop_later(d.rows, db.rows.len() as int, s);
        lemma_rows_upto_agree(d.rows.take(db.rows.len() as int), db.rows, s);
        lemma_settled_fixed(db, s);
    }
}


/// The key of the record that a command creates, if it creates one.
pub open spec fn created_key(c: CommandModel) -> Option<(Seq<char>, u64)> {
    match c {
        CommandModel::VotingPowerCreated { tx_id, tx_idx, .. } => Some((tx_id, tx_idx)),
        CommandModel::VotingPowerChange { .. } => Some((seq![], 0)),
        _ => None,
    }
}

/// The key of the records that a command spends, if it spends.
pub open spec fn spent_key(c: CommandModel) -> Option<(Seq<char>, u64)> {
    match c {
        CommandModel::VotingPowerSpent { tx_id, tx_idx, .. } => Some((tx_id, tx_idx)),
        _ => None,
    }
}

/// The point of a record-changing command.
pub open spec fn record_point(c: CommandModel) -> PointModel {
    match c {
        CommandModel::VotingPowerCreated { point, .. } => point,
        CommandModel::VotingPowerChange { point, .. } => point,
        CommandModel::VotingPowerSpent { point, .. } => point,
        _ => PointModel::Origin,
    }
}

/// The records of one block at point `p`: none spends an output that a
/// later one creates.
pub open spec fn block_records(p: PointModel, mid: Seq<CommandModel>) -> bool {
    &&& forall|i: int| 0 <= i < mid.len() ==> is_mutation(#[trigger] mid[i]) && record_point(mid[i]) == p
    &&& forall|i: int, j: int|
        0 <= i < j < mid.len() && (#[trigger] spent_key(mid[i])) is Some ==> spent_key(mid[i]) != created_key(#[trigger] mid[j])
}

spec fn key_spent_at(rows: Seq<RowModel>, k: (Seq<char>, u64), s: u64) -> bool {
    forall|r: int| 0 <= r < rows.len() && (#[trigger] rows[r]).tx_id == k.0 && rows[r].tx_idx == k.1 ==> rows[r].spent_slot == Some(s)
}

proof fn lemma_mutation_rows_grow(d: DbModel, c: CommandModel)
    requires
        is_mutation(c),
    ensures
        apply_spec(d, c) matches Ok(d2) ==> d2.rows.len() >= d.rows.len() && d2.cursor == d.cursor,
{
}

proof fn lemma_apply_all_mutations_grow(d: DbModel, mid: Seq<CommandModel>)
    requires
        forall|i: int| 0 <= i < mid.len() ==> is_mutation(#[trigger] mid[i]),
    ensures
        apply_all(d, mid) matches Ok(d2) ==> d2.rows.len() >= d.rows.len() && d2.cursor == d.cursor,
    decreases mid.len(),
{
    if mid.len() > 0 {
        assert forall|i: int| 0 <= i < mid.drop_last().len() implies is_mutation(#[trigger] mid.drop_last()[i]) by {
            assert(mid.drop_last()[i] == mid[i]);
        }
        lemma_apply_all_mutations_grow(d, mid.drop_last());
        assert(is_mutation(mid[mid.len() - 1]));
        if let Ok(d1) = apply_all(d, mid.drop_last()) {
            lemma_mutation_rows_grow(d1, mid.last());
        }
    }
}

/// Once a block's records spend key `k` (at position `i`), every row of that
/// key stays spent at the block's slot until the block ends.
proof fn lemma_spent_stays(d0: DbModel, p: PointModel, mid: Seq<CommandModel>, i: int, t: int)
    requires
        block_records(p, mid),
        0 <= i < t <= mid.len(),
        spent_key(mid[i]) is Some,
    ensures
        apply_all(d0, mid.take(t)) matches Ok(d) ==> key_spent_at(d.rows, spent_key(mid[i])->Some_0, point_slot(p)),
    decreases t,
{
    let k = spent_key(mid[i])->Some_0;
    let s = point_slot(p);
    let pre = mid.take(t);
    assert(pre.drop_last() =~= mid.take(t - 1));
    assert(pre.last() == mid[t - 1]);
    let c = mid[t - 1];
    assert(is_mutation(mid[t - 1]) && record_point(mid[t - 1]) == p);
    if let Ok(d) = apply_all(d0, pre) {
        let prev = apply_all(d0, mid.take(t - 1))->Ok_0;
        if t - 1 > i {
            lemma_spent_stays(d0, p, mid, i, t - 1);
            assert(spent_key(mid[i]) != created_key(mid[t - 1]));
            match c {
                CommandModel::VotingPowerSpent { tx_id, tx_idx, point } => {
                    assert forall|r: int| 0 <= r < d.rows.len() && (#[trigger] d.rows[r]).tx_id == k.0 && d.rows[r].tx_idx == k.1
                        implies d.rows[r].spent_slot == Some(s) by {
                        assert(d.rows[r] == spend_row(prev.rows[r], tx_id, tx_idx, s));
                    }
                },
                _ => {
                    assert forall|r: int| 0 <= r < d.rows.len() && (#[trigger] d.rows[r]).tx_id == k.0 && d.rows[r].tx_idx == k.1
                        implies d.rows[r].spent_slot == Some(s) by {
                        if r < prev.rows.len() {
                            assert(d.rows[r] == prev.rows[r]);
                        }
                    }
                },
            }
        } else {
            match c {
                CommandModel::VotingPowerSpent { tx_id, tx_idx, point } => {
                    assert forall|r: int| 0 <= r < d.rows.len() && (#[trigger] d.rows[r]).tx_id == k.0 && d.rows[r].tx_idx == k.1
                        implies d.rows[r].spent_slot == Some(s) by {
                        assert(d.rows[r] == spend_row(prev.rows[r], tx_id, tx_idx, s));
                    }
                },
                _ => {},
            }
        }
    }
}

/// The second pass over a block's records, step by step: the rows are those
/// of the first pass's end, followed by the rows the first pass had added by
/// the same step.
proof fn lemma_second_pass(d0: DbModel, d1: DbModel, p: PointModel, mid: Seq<CommandModel>, j: int)
    requires
        block_records(p, mid),
        0 <= j <= mid.len(),
        p matches PointModel::Specific(s, _) && has_slot(d0.cursor, s),
        apply_all(d0, mid) == Ok::<DbModel, ApplyError>(d1),
    ensures
        apply_all(d0, mid.take(j)) matches Ok(a) && apply_all(d1, mid.take(j)) matches Ok(b) && a.rows.len()
            >= d0.rows.len() && b.cursor == d1.cursor && b.rows == d1.rows + a.rows.skip(d0.rows.len() as int),
    decreases j,
{
    let n0 = d0.rows.len() as int;
    assert forall|i: int| 0 <= i < mid.len() implies is_mutation(#[trigger] mid[i]) by {}
    lemma_apply_all_mutations_grow(d0, mid);
    if j == 0 {
        assert(mid.take(0) =~= Seq::<CommandModel>::empty());
        assert(d0.rows.skip(n0) =~= Seq::<RowModel>::empty());
        assert(d1.rows + d0.rows.skip(n0) =~= d1.rows);
    } else {
        lemma_second_pass(d0, d1, p, mid, j - 1);
        let a = apply_all(d0, mid.take(j - 1))->Ok_0;
        let b = apply_all(d1, mid.take(j - 1))->Ok_0;
        assert(mid.take(j).drop_last() =~= mid.take(j - 1));
        assert(mid.take(j).last() == mid[j - 1]);
        let c = mid[j - 1];
        assert(is_mutation(mid[j - 1]) && record_point(mid[j - 1]) == p);
        let s = point_slot(p);
        lemma_apply_all_concat(d0, mid.take(j), mid.skip(j));
        assert(mid.take(j) + mid.skip(j) =~= mid);
        assert(apply_all(d0, mid.take(j)) is Ok);
        assert forall|i: int| 0 <= i < mid.take(j - 1).len() implies is_mutation(#[trigger] mid.take(j - 1)[i]) by {
            assert(mid.take(j - 1)[i] == mid[i]);
        }
        lemma_apply_all_mutations_grow(d0, mid.take(j - 1));
        match c {
            CommandModel::VotingPowerSpent { tx_id, tx_idx, point } => {
                lemma_spent_stays(d0, p, mid, j - 1, mid.len() as int);
                assert(mid.take(mid.len() as int) =~= mid);
                let a2 = apply_spec(a, c)->Ok_0;
                let b2 = apply_spec(b, c)->Ok_0;
                assert(b2.rows =~= d1.rows + a2.rows.skip(n0)) by {
                    assert forall|r: int| 0 <= r < b2.rows.len() implies #[trigger] b2.rows[r] == (d1.rows + a2.rows.skip(n0))[r] by {
                        assert(b2.rows[r] == spend_row(b.rows[r], tx_id, tx_idx, s));
                        if r < d1.rows.len() {
                            assert(b.rows[r] == d1.rows[r]);
                        } else {
                            assert(b.rows[r] == a.rows[r - d1.rows.len() + n0]);
                            assert(a2.rows[r - d1.rows.len() + n0] == spend_row(a.rows[r - d1.rows.len() + n0], tx_id, tx_idx, s));
                        }
                    }
                }
            },
            _ => {
                let a2 = apply_spec(a, c)->Ok_0;
                assert(d0.cursor == a.cursor);
                assert(b.cursor == d1.cursor);
                assert(d1.cursor == d0.cursor);
                if let Ok(b2) = apply_spec(b, c) {
                    assert(b2.rows =~= d1.rows + a2.rows.skip(n0));
                }
            },
        }
    }
}

/// Applying one block's full stream a second time, to the tables that its
/// first application produced, leaves the cursor unchanged and only appends
/// again the rows that the first application added (row ids aside), where
/// no record of the block spends an output that a later record creates.
pub proof fn lemma_block_twice(db: DbModel, p: PointModel, mid: Seq<CommandModel>)
    requires
        p is Specific,
        block_records(p, mid),
    ensures
        apply_all(db, block_stream(p, mid)) matches Ok(d1) ==> (apply_all(d1, block_stream(p, mid)) matches Ok(d2)
            && d2.cursor == d1.cursor && d2.rows == d1.rows + d1.rows.skip(db.rows.len() as int)),
{
    let start = seq![CommandModel::BlockStarting(p)];
    let fin = seq![CommandModel::BlockFinished(p)];
    assert forall|i: int| 0 <= i < mid.len() implies is_mutation(#[trigger] mid[i]) by {}
    if let Ok(d1) = apply_all(db, block_stream(p, mid)) {
        lemma_apply_all_concat(db, start + mid, fin);
        lemma_apply_all_concat(db, start, mid);
        lemma_apply_one(db, CommandModel::BlockStarting(p));
        let d0 = apply_spec(db, CommandModel::BlockStarting(p))->Ok_0;
        let m = apply_all(d0, mid)->Ok_0;
        lemma_apply_one(m, CommandModel::BlockFinished(p));
        assert(m == d1);
        lemma_apply_all_concat(d1, start + mid, fin);
        lemma_apply_all_concat(d1, start, mid);
        lemma_apply_one(d1, CommandModel::BlockStarting(p));
        lemma_apply_all_mutations_grow(d0, mid);
        match p {
            PointModel::Specific(s, h) => {
                let w = without_slot(db.cursor, s);
                let e = CursorEntry { slot: s, hash: hex_of(h) };
                lemma_without_slot_idempotent(db.cursor, s);
                assert(w.push(e).drop_last() =~= w);
                let d1b = apply_spec(d1, CommandModel::BlockStarting(p))->Ok_0;
                assert(d1b == d1);
                assert(d0.cursor[d0.cursor.len() - 1].slot == s);
                assert(has_slot(d0.cursor, s));
                lemma_second_pass(d0, d1, p, mid, mid.len() as int);
                assert(mid.take(mid.len() as int) =~= mid);
                let d2m = apply_all(d1, mid)->Ok_0;
                lemma_apply_one(d2m, CommandModel::BlockFinished(p));
                assert(d0.rows == db.rows);
            },
            PointModel::Origin => {},
        }
    }
}


/// The row that a record-creating command inserts.
pub open spec fn created_row(c: CommandModel) -> RowModel {
    match c {
        CommandModel::VotingPowerCreated { owner, policy, token, amount, point, tx_id, tx_idx } =>
            new_row(owner, policy, token, amount as i64, point_slot(point), tx_id, tx_idx),
        CommandModel::VotingPowerChange { address, policy, delta, point } =>
            new_row(address, policy, seq![], delta, point_slot(point), seq![], 0),
        _ => new_row(AddressModel { payment: seq![], delegation: seq![] }, seq![], seq![], 0, 0, seq![], 0),
    }
}

/// The rows after a command's spend, if it is one.
pub open spec fn after_spend(rows: Seq<RowModel>, c: CommandModel) -> Seq<RowModel> {
    match c {
        CommandModel::VotingPowerSpent { tx_id, tx_idx, point } =>
            rows.map_values(|r: RowModel| spend_row(r, tx_id, tx_idx, point_slot(point))),
        _ => rows,
    }
}

/// The rows after every spend of `m`.
pub open spec fn spends_of(rows: Seq<RowModel>, m: Seq<CommandModel>) -> Seq<RowModel>
    decreases m.len(),
{
    if m.len() == 0 {
        rows
    } else {
        after_spend(spends_of(rows, m.drop_last()), m.last())
    }
}

/// The rows that the records of `m` add, as they stand after `m`.
pub open spec fn creations(m: Seq<CommandModel>) -> Seq<RowModel>
    decreases m.len(),
{
    if m.len() == 0 {
        seq![]
    } else if created_key(m.last()) is Some {
        creations(m.drop_last()).push(created_row(m.last()))
    } else {
        after_spend(creations(m.drop_last()), m.last())
    }
}

/// Whether `m` spends the outputs of key `k`.
pub open spec fn spends_key(m: Seq<CommandModel>, k: (Seq<char>, u64)) -> bool {
    exists|j: int| 0 <= j < m.len() && spent_key(#[trigger] m[j]) == Some(k)
}

/// A record-changing command that the tables accept, given their cursor.
pub open spec fn record_ok(cursor: Seq<CursorEntry>, c: CommandModel) -> bool {
    match c {
        CommandModel::VotingPowerCreated { amount, point, .. } => amount <= i64::MAX && (point matches PointModel::Specific(t, _) && has_slot(cursor, t)),
        CommandModel::VotingPowerChange { point, .. } => point matches PointModel::Specific(t, _) && has_slot(cursor, t),
        _ => true,
    }
}

pub open spec fn records_at(p: PointModel, m: Seq<CommandModel>) -> bool {
    forall|i: int| 0 <= i < m.len() ==> is_mutation(#[trigger] m[i]) && record_point(m[i]) == p
}

proof fn lemma_records_prefix(p: PointModel, m: Seq<CommandModel>)
    requires
        records_at(p, m),
        m.len() > 0,
    ensures
        records_at(p, m.drop_last()),
        is_mutation(m.last()) && record_point(m.last()) == p,
{
    assert forall|i: int| 0 <= i < m.drop_last().len() implies is_mutation(#[trigger] m.drop_last()[i])
        && record_point(m.drop_last()[i]) == p by {
        assert(m.drop_last()[i] == m[i]);
    }
    assert(m[m.len() - 1] == m.last());
}

/// The rows after records: the earlier rows with the spends applied, then
/// the rows the records add; and the records apply exactly when each does.
proof fn lemma_records_effect(d0: DbModel, p: PointModel, m: Seq<CommandModel>)
    requires
        records_at(p, m),
    ensures
        apply_all(d0, m) is Ok <==> forall|i: int| 0 <= i < m.len() ==> record_ok(d0.cursor, #[trigger] m[i]),
        apply_all(d0, m) matches Ok(d) ==> d.cursor == d0.cursor && d.rows == spends_of(d0.rows, m) + creations(m),
    decreases m.len(),
{
    if m.len() == 0 {
        assert(d0.rows + Seq::<RowModel>::empty() =~= d0.rows);
    } else {
        lemma_records_prefix(p, m);
        let pre = m.drop_last();
        let c = m.last();
        lemma_records_effect(d0, p, pre);
        assert forall|i: int| 0 <= i < pre.len() implies #[trigger] pre[i] == m[i] by {}
        if apply_all(d0, m) is Ok {
            assert forall|i: int| 0 <= i < m.len() implies record_ok(d0.cursor, #[trigger] m[i]) by {
                if i < pre.len() {
                    assert(m[i] == pre[i]);
                } else {
                    assert(m[i] == c);
                }
            }
        }
        if forall|i: int| 0 <= i < m.len() ==> record_ok(d0.cursor, #[trigger] m[i]) {
            assert forall|i: int| 0 <= i < pre.len() implies record_ok(d0.cursor, #[trigger] pre[i]) by {
                assert(pre[i] == m[i]);
            }
            assert(record_ok(d0.cursor, m[m.len() - 1]));
        }
        if let Ok(d) = apply_all(d0, m) {
            let prev = apply_all(d0, pre)->Ok_0;
            match c {
                CommandModel::VotingPowerSpent { tx_id, tx_idx, point } => {
                    assert(d.rows =~= spends_of(d0.rows, m) + creations(m));
                },
                _ => {
                    assert(d.rows =~= spends_of(d0.rows, m) + creations(m));
                },
            }
        }
    }
}

/// What the spends of `m`, all at slot `s`, make of one row.
pub open spec fn spent_by(r: RowModel, m: Seq<CommandModel>, s: u64) -> RowModel {
    if spends_key(m, (r.tx_id, r.tx_idx)) {
        RowModel { spent_slot: Some(s), ..r }
    } else {
        r
    }
}

proof fn lemma_spends_of_pointwise(rows: Seq<RowModel>, p: PointModel, m: Seq<CommandModel>)
    requires
        records_at(p, m),
    ensures
        spends_of(rows, m).len() == rows.len(),
        forall|i: int| 0 <= i < rows.len() ==> #[trigger] spends_of(rows, m)[i] == spent_by(rows[i], m, point_slot(p)),
    decreases m.len(),
{
    if m.len() > 0 {
        lemma_records_prefix(p, m);
        let pre = m.drop_last();
        lemma_spends_of_pointwise(rows, p, pre);
        assert forall|i: int| 0 <= i < rows.len() implies #[trigger] spends_of(rows, m)[i] == spent_by(rows[i], m, point_slot(p)) by {
            let r = rows[i];
            let k = (r.tx_id, r.tx_idx);
            if spends_key(pre, k) {
                let j = choose|j: int| 0 <= j < pre.len() && spent_key(#[trigger] pre[j]) == Some(k);
                assert(m[j] == pre[j]);
            }
            if spends_key(m, k) && !spends_key(pre, k) {
                let j = choose|j: int| 0 <= j < m.len() && spent_key(#[trigger] m[j]) == Some(k);
                if j < pre.len() {
                    assert(pre[j] == m[j]);
                }
            }
            if spent_key(m.last()) == Some(k) {
                assert(spent_key(m[m.len() - 1]) == Some(k));
            }
        }
    }
}

proof fn lemma_spends_of_concat(rows: Seq<RowModel>, x: Seq<CommandModel>, y: Seq<CommandModel>)
    ensures
        spends_of(rows, x + y) == spends_of(spends_of(rows, x), y),
    decreases y.len(),
{
    if y.len() == 0 {
        assert(x + y =~= x);
    } else {
        assert((x + y).drop_last() =~= x + y.drop_last());
        assert((x + y).last() == y.last());
        lemma_spends_of_concat(rows, x, y.drop_last());
    }
}

proof fn lemma_after_spend_concat(a: Seq<RowModel>, b: Seq<RowModel>, c: CommandModel)
    ensures
        after_spend(a + b, c) == after_spend(a, c) + after_spend(b, c),
{
    assert(after_spend(a + b, c) =~= after_spend(a, c) + after_spend(b, c));
}

proof fn lemma_creations_concat(x: Seq<CommandModel>, y: Seq<CommandModel>)
    ensures
        creations(x + y) == spends_of(creations(x), y) + creations(y),
    decreases y.len(),
{
    if y.len() == 0 {
        assert(x + y =~= x);
        assert(creations(x) + Seq::<RowModel>::empty() =~= creations(x));
    } else {
        assert((x + y).drop_last() =~= x + y.drop_last());
        assert((x + y).last() == y.last());
        lemma_creations_concat(x, y.drop_last());
        if created_key(y.last()) is Some {
            assert(spends_of(creations(x), y) == spends_of(creations(x), y.drop_last()));
            assert(creations(x + y) =~= spends_of(creations(x), y) + creations(y));
        } else {
            lemma_after_spend_concat(spends_of(creations(x), y.drop_last()), creations(y.drop_last()), y.last());
        }
    }
}

proof fn lemma_records_concat(p: PointModel, x: Seq<CommandModel>, y: Seq<CommandModel>)
    requires
        records_at(p, x),
        records_at(p, y),
    ensures
        records_at(p, x + y),
        forall|i: int| 0 <= i < (x + y).len() ==> #[trigger] (x + y)[i] == if i < x.len() { x[i] } else { y[i - x.len()] },
{
    assert forall|i: int| 0 <= i < (x + y).len() implies is_mutation(#[trigger] (x + y)[i]) && record_point((x + y)[i]) == p by {
        if i < x.len() {
            assert((x + y)[i] == x[i]);
        } else {
            assert((x + y)[i] == y[i - x.len()]);
        }
    }
}

proof fn lemma_spends_key_swap(x: Seq<CommandModel>, y: Seq<CommandModel>, k: (Seq<char>, u64))
    ensures
        spends_key(x + y, k) == spends_key(y + x, k),
        spends_key(x + y, k) == (spends_key(x, k) || spends_key(y, k)),
{
    if spends_key(x, k) {
        let j = choose|j: int| 0 <= j < x.len() && spent_key(#[trigger] x[j]) == Some(k);
        assert((x + y)[j] == x[j]);
        assert((y + x)[y.len() + j] == x[j]);
    }
    if spends_key(y, k) {
        let j = choose|j: int| 0 <= j < y.len() && spent_key(#[trigger] y[j]) == Some(k);
        assert((x + y)[x.len() + j] == y[j]);
        assert((y + x)[j] == y[j]);
    }
    if spends_key(x + y, k) {
        let j = choose|j: int| 0 <= j < (x + y).len() && spent_key(#[trigger] (x + y)[j]) == Some(k);
        if j < x.len() {
            assert((x + y)[j] == x[j]);
        } else {
            assert((x + y)[j] == y[j - x.len()]);
        }
    }
    if spends_key(y + x, k) {
        let j = choose|j: int| 0 <= j < (y + x).len() && spent_key(#[trigger] (y + x)[j]) == Some(k);
        if j < y.len() {
            assert((y + x)[j] == y[j]);
        } else {
            assert((y + x)[j] == x[j - y.len()]);
        }
    }
}

/// Every row that the records `x` add, and whose output `y` spends, is spent
/// at slot `s` by `x` itself.
pub open spec fn spends_own_rows(x: Seq<CommandModel>, y: Seq<CommandModel>, s: u64) -> bool {
    forall|i: int|
        0 <= i < creations(x).len() && spends_key(y, ((#[trigger] creations(x)[i]).tx_id, creations(x)[i].tx_idx))
            ==> creations(x)[i].spent_slot == Some(s)
}

/// The records of two reducers for one block may come in either order: the
/// tables end with the same cursor and the same rows (row order and ids
/// aside), and either order is accepted exactly when the other is. This
/// holds where each reducer itself spends every output it records that the
/// other spends within the block.
pub proof fn lemma_reducer_order(db: DbModel, p: PointModel, x: Seq<CommandModel>, y: Seq<CommandModel>)
    requires
        p is Specific,
        records_at(p, x),
        records_at(p, y),
        spends_own_rows(x, y, point_slot(p)),
        spends_own_rows(y, x, point_slot(p)),
    ensures
        apply_all(db, block_stream(p, x + y)) is Ok <==> apply_all(db, block_stream(p, y + x)) is Ok,
        apply_all(db, block_stream(p, x + y)) matches Ok(d1) ==> (apply_all(db, block_stream(p, y + x)) matches Ok(d2)
            && d1.cursor == d2.cursor && d1.rows.to_multiset() == d2.rows.to_multiset()),
{
    let s = point_slot(p);
    let start = seq![CommandModel::BlockStarting(p)];
    let fin = seq![CommandModel::BlockFinished(p)];
    lemma_records_concat(p, x, y);
    lemma_records_concat(p, y, x);
    lemma_apply_one(db, CommandModel::BlockStarting(p));
    let d0 = apply_spec(db, CommandModel::BlockStarting(p))->Ok_0;
    lemma_apply_all_concat(db, start + (x + y), fin);
    lemma_apply_all_concat(db, start, x + y);
    lemma_apply_all_concat(db, start + (y + x), fin);
    lemma_apply_all_concat(db, start, y + x);
    lemma_records_effect(d0, p, x + y);
    lemma_records_effect(d0, p, y + x);
    assert((forall|i: int| 0 <= i < (x + y).len() ==> record_ok(d0.cursor, #[trigger] (x + y)[i])) <==> (forall|i: int|
        0 <= i < (y + x).len() ==> record_ok(d0.cursor, #[trigger] (y + x)[i]))) by {
        if forall|i: int| 0 <= i < (x + y).len() ==> record_ok(d0.cursor, #[trigger] (x + y)[i]) {
            assert forall|i: int| 0 <= i < (y + x).len() implies record_ok(d0.cursor, #[trigger] (y + x)[i]) by {
                if i < y.len() {
                    assert((x + y)[x.len() + i] == y[i]);
                } else {
                    assert((x + y)[i - y.len()] == x[i - y.len()]);
                }
            }
        }
        if forall|i: int| 0 <= i < (y + x).len() ==> record_ok(d0.cursor, #[trigger] (y + x)[i]) {
            assert forall|i: int| 0 <= i < (x + y).len() implies record_ok(d0.cursor, #[trigger] (x + y)[i]) by {
                if i < x.len() {
                    assert((y + x)[y.len() + i] == x[i]);
                } else {
                    assert((y + x)[i - x.len()] == y[i - x.len()]);
                }
            }
        }
    }
    if let Ok(m1) = apply_all(d0, x + y) {
        let m2 = apply_all(d0, y + x)->Ok_0;
        lemma_apply_one(m1, CommandModel::BlockFinished(p));
        lemma_apply_one(m2, CommandModel::BlockFinished(p));
        lemma_creations_concat(x, y);
        lemma_creations_concat(y, x);
        lemma_spends_of_pointwise(creations(x), p, y);
        lemma_spends_of_pointwise(creations(y), p, x);
        assert(spends_of(creations(x), y) =~= creations(x));
        assert(spends_of(creations(y), x) =~= creations(y));
        lemma_spends_of_pointwise(d0.rows, p, x + y);
        lemma_spends_of_pointwise(d0.rows, p, y + x);
        assert forall|i: int| 0 <= i < d0.rows.len() implies #[trigger] spends_of(d0.rows, x + y)[i] == spends_of(d0.rows, y + x)[i] by {
            lemma_spends_key_swap(x, y, (d0.rows[i].tx_id, d0.rows[i].tx_idx));
        }
        let base = spends_of(d0.rows, x + y);
        assert(spends_of(d0.rows, y + x) =~= base);
        assert(m1.rows == base + creations(x) + creations(y)) by {
            assert(base + (creations(x) + creations(y)) =~= base + creations(x) + creations(y));
        }
        assert(m2.rows == base + creations(y) + creations(x)) by {
            assert(base + (creations(y) + creations(x)) =~= base + creations(y) + creations(x));
        }
        vstd::seq_lib::lemma_multiset_commutative(base + creations(x), creations(y));
        vstd::seq_lib::lemma_multiset_commutative(base + creations(y), creations(x));
        vstd::seq_lib::lemma_multiset_commutative(base, creations(x));
        vstd::seq_lib::lemma_multiset_commutative(base, creations(y));
        assert(m1.rows.to_multiset() =~= m2.rows.to_multiset()) by {
            broadcast use vstd::multiset::group_multiset_axioms;
        }
    }
}

} // verus!
