//! The shared data model: chain points, transaction outputs as the reducers
//! read them, the per-block context of resolved inputs, and the command
//! algebra that reducers emit and storage applies.
use vstd::prelude::*;

verus! {

/// A chain position: genesis, or a slot with its block hash.
#[derive(Clone, Debug, PartialEq, Eq)]
pub enum Point {
    Origin,
    Specific(u64, Vec<u8>),
}

/// What a `Point` stands for.
pub enum PointModel {
    Origin,
    Specific(u64, Seq<u8>),
}

impl View for Point {
    type V = PointModel;

    open spec fn view(&self) -> PointModel {
        match self {
            Point::Origin => PointModel::Origin,
            Point::Specific(slot, hash) => PointModel::Specific(*slot, hash@),
        }
    }
}

pub fn copy_bytes(b: &Vec<u8>) -> (r: Vec<u8>)
    ensures
        r@ == b@,
{
    let mut r: Vec<u8> = Vec::with_capacity(b.len());
    let mut i: usize = 0;
    while i < b.len()
        invariant
            i <= b.len(),
            r@ == b@.take(i as int),
        decreases b.len() - i,
    {
        r.push(b[i]);
        i += 1;
        assert(r@ =~= b@.take(i as int));
    }
    assert(b@.take(b.len() as int) =~= b@);
    r
}

impl Point {
    pub fn copy(&self) -> (r: Point)
        ensures
            r@ == self@,
    {
        match self {
            Point::Origin => Point::Origin,
            Point::Specific(slot, hash) => Point::Specific(*slot, copy_bytes(hash)),
        }
    }
}

/// The model of an optional point.
pub open spec fn opt_point(p: Option<Point>) -> Option<PointModel> {
    match p {
        Some(x) => Some(x@),
        None => None,
    }
}

/// Identifies a transaction output: the producing transaction's hash and the
/// output's position in it.
#[derive(Clone, Debug, PartialEq, Eq)]
pub struct OutputRef {
    pub tx_hash: Vec<u8>,
    pub index: u32,
}

/// Whether two references name the same output.
pub open spec fn same_ref(a: OutputRef, b: OutputRef) -> bool {
    a.tx_hash@ == b.tx_hash@ && a.index == b.index
}

/// A native (non-lovelace) asset held by an output.
#[derive(Clone, Debug, PartialEq, Eq)]
pub struct NativeAsset {
    pub policy: Vec<u8>,
    pub name: Vec<u8>,
    pub amount: u64,
}

/// A Shelley address reduced to its key hashes: the payment part and the
/// delegation part (empty where the address has none).
#[derive(Clone, Debug, PartialEq, Eq)]
pub struct ShelleyAddress {
    pub payment: Vec<u8>,
    pub delegation: Vec<u8>,
}

/// What a `ShelleyAddress` stands for.
pub struct AddressModel {
    pub payment: Seq<u8>,
    pub delegation: Seq<u8>,
}

impl View for ShelleyAddress {
    type V = AddressModel;

    open spec fn view(&self) -> AddressModel {
        AddressModel { payment: self.payment@, delegation: self.delegation@ }
    }
}

impl ShelleyAddress {
    pub fn copy(&self) -> (r: ShelleyAddress)
        ensures
            r@ == self@,
    {
        ShelleyAddress { payment: copy_bytes(&self.payment), delegation: copy_bytes(&self.delegation) }
    }
}

/// An output's address: Shelley, or of another era (which reducers skip).
#[derive(Clone, Debug, PartialEq, Eq)]
pub enum Address {
    Shelley(ShelleyAddress),
    Other,
}

/// Structured data attached to a script-locked output.
#[derive(Debug, PartialEq, Eq)]
pub enum PlutusData {
    Constr(u64, Vec<PlutusData>),
    BoundedBytes(Vec<u8>),
    Other,
}

/// An output's datum: inline, or the hash of a datum in the block's witnesses.
#[derive(Debug, PartialEq, Eq)]
pub enum DatumOption {
    Hash(Vec<u8>),
    Data(PlutusData),
}

/// A transaction output as the reducers read it. `address_text` is the
/// address's textual (bech32) form.
#[derive(Debug, PartialEq, Eq)]
pub struct TxOutput {
    pub address: Address,
    pub address_text: String,
    pub lovelace: u64,
    pub assets: Vec<NativeAsset>,
    pub datum: Option<DatumOption>,
}

/// A transaction: its hash, the outputs it consumes and those it produces.
#[derive(Debug, PartialEq, Eq)]
pub struct Tx {
    pub hash: Vec<u8>,
    pub inputs: Vec<OutputRef>,
    pub outputs: Vec<TxOutput>,
}

/// A datum from a block's witness sets, with the bytes it was encoded as.
#[derive(Debug, PartialEq, Eq)]
pub struct WitnessDatum {
    pub cbor: Vec<u8>,
    pub data: PlutusData,
}

/// A decoded block.
#[derive(Debug, PartialEq, Eq)]
pub struct Block {
    pub slot: u64,
    pub hash: Vec<u8>,
    pub txs: Vec<Tx>,
    pub witness_datums: Vec<WitnessDatum>,
}

impl Block {
    pub open spec fn point(&self) -> PointModel {
        PointModel::Specific(self.slot, self.hash@)
    }

    pub fn point_exec(&self) -> (r: Point)
        ensures
            r@ == self.point(),
    {
        Point::Specific(self.slot, copy_bytes(&self.hash))
    }
}

/// What to do when a lookup misses or a decode fails.
#[derive(Clone, Copy, Debug, PartialEq, Eq, Structural)]
pub enum ErrorAction {
    Skip,
    Fail,
}

#[derive(Clone, Copy, Debug, PartialEq, Eq, Structural)]
pub struct RuntimePolicy {
    pub missing_utxo: ErrorAction,
    pub decode_error: ErrorAction,
}

/// A lookup into the block context found nothing for a consumed output.
#[derive(Clone, Copy, Debug, PartialEq, Eq, Structural)]
pub enum ContextError {
    MissingUtxo,
}

/// The outputs that one block's transactions consume, resolved by the
/// enricher. A later entry for a reference replaces an earlier one.
#[derive(Debug, PartialEq, Eq)]
pub struct BlockContext {
    pub utxos: Vec<(OutputRef, TxOutput)>,
}

/// The output recorded for `key` in `entries`: the last entry that names it.
pub open spec fn lookup(entries: Seq<(OutputRef, TxOutput)>, key: OutputRef) -> Option<TxOutput>
    decreases entries.len(),
{
    if entries.len() == 0 {
        None
    } else if same_ref(entries.last().0, key) {
        Some(entries.last().1)
    } else {
        lookup(entries.drop_last(), key)
    }
}

impl BlockContext {
    pub fn new() -> (r: BlockContext)
        ensures
            r.utxos@.len() == 0,
    {
        BlockContext { utxos: Vec::new() }
    }

    pub open spec fn find(&self, key: OutputRef) -> Option<TxOutput> {
        lookup(self.utxos@, key)
    }

    pub fn import_ref_output(&mut self, key: OutputRef, output: TxOutput)
        ensures
            final(self).utxos@ == old(self).utxos@.push((key, output)),
            final(self).find(key) == Some(output),
            forall|k: OutputRef| !same_ref(k, key) ==> final(self).find(k) == old(self).find(k),
    {
        self.utxos.push((key, output));
        assert(self.utxos@.drop_last() =~= old(self).utxos@);
    }

    pub fn find_utxo(&self, key: &OutputRef) -> (r: Result<&TxOutput, ContextError>)
        ensures
            match r {
                Ok(o) => self.find(*key) == Some(*o),
                Err(e) => self.find(*key) is None && e == ContextError::MissingUtxo,
            },
    {
        let mut i: usize = self.utxos.len();
        assert(self.utxos@.take(i as int) =~= self.utxos@);
        while i > 0
            invariant
                i <= self.utxos@.len(),
                lookup(self.utxos@, *key) == lookup(self.utxos@.take(i as int), *key),
            decreases i,
        {
            let entry = &self.utxos[i - 1];
            assert(self.utxos@.take(i as int).drop_last() =~= self.utxos@.take(i - 1));
            if entry.0.index == key.index && bytes_eq(&entry.0.tx_hash, &key.tx_hash) {
                return Ok(&entry.1);
            }
            i -= 1;
        }
        Err(ContextError::MissingUtxo)
    }
}

/// The outputs that the inputs consume, in order, as the block context
/// resolves them: a miss is an error where the policy says so, and is left
/// out otherwise.
pub open spec fn consumed_found(entries: Seq<(OutputRef, TxOutput)>, inputs: Seq<OutputRef>, policy: RuntimePolicy) -> Result<Seq<TxOutput>, ContextError>
    decreases inputs.len(),
{
    if inputs.len() == 0 {
        Ok(seq![])
    } else {
        match consumed_found(entries, inputs.drop_last(), policy) {
            Err(e) => Err(e),
            Ok(found) => match lookup(entries, inputs.last()) {
                Some(o) => Ok(found.push(o)),
                None => if policy.missing_utxo == ErrorAction::Fail {
                    Err(ContextError::MissingUtxo)
                } else {
                    Ok(found)
                },
            },
        }
    }
}

proof fn lemma_consumed_err_prefix(entries: Seq<(OutputRef, TxOutput)>, s: Seq<OutputRef>, policy: RuntimePolicy, i: int)
    requires
        0 <= i <= s.len(),
        consumed_found(entries, s.take(i), policy) is Err,
    ensures
        consumed_found(entries, s, policy) == consumed_found(entries, s.take(i), policy),
    decreases s.len(),
{
    if i < s.len() {
        assert(s.drop_last().take(i) =~= s.take(i));
        lemma_consumed_err_prefix(entries, s.drop_last(), policy, i);
    } else {
        assert(s.take(i) =~= s);
    }
}

impl BlockContext {
    /// The outputs that a transaction consumes, resolved through the context.
    pub fn find_consumed_txos<'a>(&'a self, tx: &Tx, policy: &RuntimePolicy) -> (r: Result<Vec<&'a TxOutput>, ContextError>)
        ensures
            match consumed_found(self.utxos@, tx.inputs@, *policy) {
                Ok(found) => r matches Ok(v) && v@.len() == found.len() && forall|i: int| 0 <= i < found.len() ==> *v@[i] == found[i],
                Err(e) => r == Err::<Vec<&'a TxOutput>, ContextError>(e),
            },
    {
        let mut v: Vec<&'a TxOutput> = Vec::new();
        let ghost mut found: Seq<TxOutput> = seq![];
        let mut i: usize = 0;
        assert(tx.inputs@.take(0) =~= seq![]);
        while i < tx.inputs.len()
            invariant
                i <= tx.inputs@.len(),
                consumed_found(self.utxos@, tx.inputs@.take(i as int), *policy) == Ok::<Seq<TxOutput>, ContextError>(found),
                v@.len() == found.len(),
                forall|j: int| 0 <= j < found.len() ==> *v@[j] == found[j],
            decreases tx.inputs.len() - i,
        {
            assert(tx.inputs@.take(i + 1).drop_last() =~= tx.inputs@.take(i as int));
            assert(tx.inputs@.take(i + 1).last() == tx.inputs@[i as int]);
            match self.find_utxo(&tx.inputs[i]) {
                Ok(o) => {
                    v.push(o);
                    proof {
                        found = found.push(*o);
                    }
                },
                Err(e) => {
                    if policy.missing_utxo == ErrorAction::Fail {
                        proof {
                            lemma_consumed_err_prefix(self.utxos@, tx.inputs@, *policy, i + 1);
                        }
                        return Err(e);
                    }
                },
            }
            i += 1;
        }
        assert(tx.inputs@.take(i as int) =~= tx.inputs@);
        Ok(v)
    }
}

pub fn bytes_eq(a: &Vec<u8>, b: &Vec<u8>) -> (r: bool)
    ensures
        r == (a@ == b@),
{
    if a.len() != b.len() {
        return false;
    }
    let mut i: usize = 0;
    while i < a.len()
        invariant
            a@.len() == b@.len(),
            i <= a@.len(),
            a@.take(i as int) == b@.take(i as int),
        decreases a.len() - i,
    {
        if a[i] != b[i] {
            assert(a@[i as int] != b@[i as int]);
            return false;
        }
        assert(a@.take(i + 1) =~= a@.take(i as int).push(a@[i as int]));
        assert(b@.take(i + 1) =~= b@.take(i as int).push(b@[i as int]));
        i += 1;
    }
    assert(a@ =~= a@.take(a@.len() as int));
    assert(b@ =~= b@.take(b@.len() as int));
    true
}

/// The commands that reducers emit and storage applies.
#[derive(Clone, Debug, PartialEq, Eq)]
pub enum CRDTCommand {
    /// Opens a block's logical transaction.
    BlockStarting(Point),
    /// A signed change of an address's voting power under a policy tag.
    VotingPowerChange { address: ShelleyAddress, policy: String, delta: i64, point: Point },
    /// An output holding voting power came into existence.
    VotingPowerCreated {
        owner: ShelleyAddress,
        policy: String,
        token: String,
        amount: u64,
        point: Point,
        tx_id: String,
        tx_idx: u64,
    },
    /// A previously created output is consumed.
    VotingPowerSpent { tx_id: String, tx_idx: u64, point: Point },
    /// Closes a block's logical transaction.
    BlockFinished(Point),
    /// Discards every effect strictly after the point.
    RollBack(Point),
}

/// What a `CRDTCommand` stands for.
pub enum CommandModel {
    BlockStarting(PointModel),
    VotingPowerChange { address: AddressModel, policy: Seq<char>, delta: i64, point: PointModel },
    VotingPowerCreated {
        owner: AddressModel,
        policy: Seq<char>,
        token: Seq<char>,
        amount: u64,
        point: PointModel,
        tx_id: Seq<char>,
        tx_idx: u64,
    },
    VotingPowerSpent { tx_id: Seq<char>, tx_idx: u64, point: PointModel },
    BlockFinished(PointModel),
    RollBack(PointModel),
}

impl View for CRDTCommand {
    type V = CommandModel;

    open spec fn view(&self) -> CommandModel {
        match self {
            CRDTCommand::BlockStarting(p) => CommandModel::BlockStarting(p@),
            CRDTCommand::VotingPowerChange { address, policy, delta, point } =>
                CommandModel::VotingPowerChange {
                    address: address@,
                    policy: policy@,
                    delta: *delta,
                    point: point@,
                },
            CRDTCommand::VotingPowerCreated { owner, policy, token, amount, point, tx_id, tx_idx } =>
                CommandModel::VotingPowerCreated {
                    owner: owner@,
                    policy: policy@,
                    token: token@,
                    amount: *amount,
                    point: point@,
                    tx_id: tx_id@,
                    tx_idx: *tx_idx,
                },
            CRDTCommand::VotingPowerSpent { tx_id, tx_idx, point } =>
                CommandModel::VotingPowerSpent { tx_id: tx_id@, tx_idx: *tx_idx, point: point@ },
            CRDTCommand::BlockFinished(p) => CommandModel::BlockFinished(p@),
            CRDTCommand::RollBack(p) => CommandModel::RollBack(p@),
        }
    }
}

/// The models of a sequence of commands.
pub open spec fn commands_model(cmds: Seq<CRDTCommand>) -> Seq<CommandModel> {
    cmds.map_values(|c: CRDTCommand| c@)
}

impl CRDTCommand {
    pub fn block_starting(block: &Block) -> (r: CRDTCommand)
        ensures
            r@ == CommandModel::BlockStarting(block.point()),
    {
        CRDTCommand::BlockStarting(block.point_exec())
    }

    pub fn voting_power_change(address: ShelleyAddress, policy: String, delta: i64, point: Point) -> (r: CRDTCommand)
        ensures
            r@ == (CommandModel::VotingPowerChange {
                address: address@,
                policy: policy@,
                delta,
                point: point@,
            }),
    {
        CRDTCommand::VotingPowerChange { address, policy, delta, point }
    }

    pub fn block_finished(block: &Block) -> (r: CRDTCommand)
        ensures
            r@ == CommandModel::BlockFinished(block.point()),
    {
        CRDTCommand::BlockFinished(block.point_exec())
    }

    pub fn rollback(point: Point) -> (r: CRDTCommand)
        ensures
            r@ == CommandModel::RollBack(point@),
    {
        CRDTCommand::RollBack(point)
    }
}

/// A message entering the enricher: a raw block to roll forward to, or a
/// point to roll back to.
#[derive(Clone, Debug, PartialEq, Eq)]
pub enum RawBlockPayload {
    RollForward(Vec<u8>),
    RollBack(Point),
}

/// A message entering the reducers: a decoded block with its resolved
/// inputs, or a point to roll back to.
#[derive(Debug, PartialEq, Eq)]
pub enum EnrichedBlockPayload {
    RollForward(Block, BlockContext),
    RollBack(Point),
}

} // verus!
