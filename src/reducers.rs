//! The reducer stage: reducers turn an enriched block into commands
//! that record which outputs hold voting power and when they are spent.
use vstd::prelude::*;
use crate::hexfmt::{hex_of, hex_encode};
use crate::model::{
    EnrichedBlockPayload, Block, BlockContext, CRDTCommand, CommandModel, ErrorAction, NativeAsset, OutputRef,
    RuntimePolicy, ShelleyAddress, AddressModel, Tx, TxOutput, commands_model,
};

pub mod balance_by_address;
pub mod balance_by_genius_stake;


verus! {

/// Why a reducer could not interpret a block.
#[derive(Clone, Copy, Debug, PartialEq, Eq, Structural)]
pub enum ReducerError {
    /// A consumed output is absent from the block context and the runtime
    /// policy asks to fail on such misses.
    MissingUtxo,
    /// The selected amount of an output does not fit in 64 bits.
    AmountOverflow,
}

/// The sum of the amounts of the assets whose policy id is written `p` in hex.
pub open spec fn policy_total(assets: Seq<NativeAsset>, p: Seq<char>) -> int
    decreases assets.len(),
{
    if assets.len() == 0 {
        0
    } else {
        policy_total(assets.drop_last(), p) + if hex_of(assets.last().policy@) == p {
            assets.last().amount as int
        } else {
            0
        }
    }
}

/// The amount of an output that counts as voting power: its lovelace where no
/// policy is configured, else the total of the assets under that policy.
pub open spec fn selected_amount(o: TxOutput, policy_id_hex: Option<String>) -> int {
    match policy_id_hex {
        None => o.lovelace as int,
        Some(p) => policy_total(o.assets@, p@),
    }
}

proof fn lemma_policy_total_grows(assets: Seq<NativeAsset>, p: Seq<char>, i: int)
    requires
        0 <= i <= assets.len(),
    ensures
        0 <= policy_total(assets.take(i), p) <= policy_total(assets, p),
    decreases assets.len(),
{
    if i < assets.len() {
        lemma_policy_total_grows(assets.drop_last(), p, i);
        assert(assets.drop_last().take(i) =~= assets.take(i));
    } else {
        assert(assets.take(i) =~= assets);
        lemma_policy_total_nonneg(assets, p);
    }
}

proof fn lemma_policy_total_nonneg(assets: Seq<NativeAsset>, p: Seq<char>)
    ensures
        policy_total(assets, p) >= 0,
    decreases assets.len(),
{
    if assets.len() > 0 {
        lemma_policy_total_nonneg(assets.drop_last(), p);
    }
}

/// The output's selected amount, or `None` where it exceeds `u64::MAX`.
pub fn tokens_amount(policy_id_hex: &Option<String>, o: &TxOutput) -> (r: Option<u64>)
    ensures
        match r {
            Some(a) => a as int == selected_amount(*o, *policy_id_hex),
            None => selected_amount(*o, *policy_id_hex) > u64::MAX,
        },
{
    match policy_id_hex {
        None => Some(o.lovelace),
        Some(p) => {
            let mut total: u64 = 0;
            let mut i: usize = 0;
            while i < o.assets.len()
                invariant
                    *policy_id_hex == Some(*p),
                    i <= o.assets@.len(),
                    total as int == policy_total(o.assets@.take(i as int), p@),
                decreases o.assets.len() - i,
            {
                let asset = &o.assets[i];
                assert(o.assets@.take(i + 1).drop_last() =~= o.assets@.take(i as int));
                let text = hex_encode(asset.policy.as_slice());
                assert(o.assets@.take(i + 1).last() == *asset);
                if text == *p {
                    match total.checked_add(asset.amount) {
                        Some(t) => {
                            total = t;
                        },
                        None => {
                            assert(o.assets@.take(i + 1).last() == *asset);
                            assert(hex_of(asset.policy@) == p@);
                            proof {
                                lemma_policy_total_grows(o.assets@, p@, i + 1);
                                assert(policy_total(o.assets@.take(i + 1), p@) == total + asset.amount);
                                assert(policy_total(o.assets@, p@) > u64::MAX);
                                assert(selected_amount(*o, *policy_id_hex) > u64::MAX);
                            }
                            return None;
                        },
                    }
                }
                i += 1;
            }
            assert(o.assets@.take(i as int) =~= o.assets@);
            Some(total)
        },
    }
}

/// What tells one reducer from another: which outputs it counts and to whom,
/// how it tags its records, and how it treats lookup misses.
pub trait VotingRule {
    /// The address to which an output's voting power is attributed, where the
    /// output counts at all.
    spec fn owner_spec(&self, block: Block, o: TxOutput) -> Option<AddressModel>;

    /// The tag under which the reducer's records are kept.
    spec fn tag_spec(&self) -> Seq<char>;

    /// The policy id (in hex) whose assets count, if any.
    spec fn policy_hex_spec(&self) -> Option<String>;

    spec fn runtime_spec(&self) -> RuntimePolicy;

    fn owner(&self, block: &Block, o: &TxOutput) -> (r: Option<ShelleyAddress>)
        ensures
            match r {
                Some(a) => self.owner_spec(*block, *o) == Some(a@),
                None => self.owner_spec(*block, *o) is None,
            },
    ;

    fn tag(&self) -> (r: String)
        ensures
            r@ == self.tag_spec(),
    ;

    fn policy_hex(&self) -> (r: &Option<String>)
        ensures
            *r == self.policy_hex_spec(),
    ;

    fn runtime(&self) -> (r: RuntimePolicy)
        ensures
            r == self.runtime_spec(),
    ;
}

/// Both results concatenated, or the first error.
pub open spec fn then_concat<E>(a: Result<Seq<CommandModel>, E>, b: Result<Seq<CommandModel>, E>) -> Result<Seq<CommandModel>, E> {
    match a {
        Err(e) => Err(e),
        Ok(x) => match b {
            Err(e) => Err(e),
            Ok(y) => Ok(x + y),
        },
    }
}

/// The commands for one consumed output: a spend record where the resolved
/// output counts and its amount is not zero.
pub open spec fn spent_cmds<R: VotingRule>(r: R, block: Block, ctx: BlockContext, input: OutputRef) -> Result<Seq<CommandModel>, ReducerError> {
    match ctx.find(input) {
        None => if r.runtime_spec().missing_utxo == ErrorAction::Fail {
            Err(ReducerError::MissingUtxo)
        } else {
            Ok(seq![])
        },
        Some(o) => if r.owner_spec(block, o) is Some && selected_amount(o, r.policy_hex_spec()) != 0 {
            Ok(seq![CommandModel::VotingPowerSpent {
                tx_id: hex_of(input.tx_hash@),
                tx_idx: input.index as u64,
                point: block.point(),
            }])
        } else {
            Ok(seq![])
        },
    }
}

/// The commands for one produced output at position `idx` of `tx`: a
/// creation record where the output counts and its amount is not zero.
pub open spec fn created_cmds<R: VotingRule>(r: R, block: Block, tx: Tx, idx: int, o: TxOutput) -> Result<Seq<CommandModel>, ReducerError> {
    match r.owner_spec(block, o) {
        None => Ok(seq![]),
        Some(owner) => {
            let amount = selected_amount(o, r.policy_hex_spec());
            if amount > u64::MAX {
                Err(ReducerError::AmountOverflow)
            } else if amount == 0 {
                Ok(seq![])
            } else {
                Ok(seq![CommandModel::VotingPowerCreated {
                    owner,
                    policy: r.tag_spec(),
                    token: seq![],
                    amount: amount as u64,
                    point: block.point(),
                    tx_id: hex_of(tx.hash@),
                    tx_idx: idx as u64,
                }])
            }
        },
    }
}

pub open spec fn spent_all<R: VotingRule>(r: R, block: Block, ctx: BlockContext, inputs: Seq<OutputRef>) -> Result<Seq<CommandModel>, ReducerError>
    decreases inputs.len(),
{
    if inputs.len() == 0 {
        Ok(seq![])
    } else {
        then_concat(spent_all(r, block, ctx, inputs.drop_last()), spent_cmds(r, block, ctx, inputs.last()))
    }
}

pub open spec fn created_all<R: VotingRule>(r: R, block: Block, tx: Tx, outputs: Seq<TxOutput>) -> Result<Seq<CommandModel>, ReducerError>
    decreases outputs.len(),
{
    if outputs.len() == 0 {
        Ok(seq![])
    } else {
        then_concat(
            created_all(r, block, tx, outputs.drop_last()),
            created_cmds(r, block, tx, outputs.len() - 1, outputs.last()),
        )
    }
}

/// A transaction's commands: those of its consumed outputs, then those of
/// its produced outputs.
pub open spec fn tx_cmds<R: VotingRule>(r: R, block: Block, ctx: BlockContext, tx: Tx) -> Result<Seq<CommandModel>, ReducerError> {
    then_concat(spent_all(r, block, ctx, tx.inputs@), created_all(r, block, tx, tx.outputs@))
}

pub open spec fn txs_cmds<R: VotingRule>(r: R, block: Block, ctx: BlockContext, txs: Seq<Tx>) -> Result<Seq<CommandModel>, ReducerError>
    decreases txs.len(),
{
    if txs.len() == 0 {
        Ok(seq![])
    } else {
        then_concat(txs_cmds(r, block, ctx, txs.drop_last()), tx_cmds(r, block, ctx, txs.last()))
    }
}

/// The commands one reducer emits for a block, transaction by transaction.
pub open spec fn block_cmds<R: VotingRule>(r: R, block: Block, ctx: BlockContext) -> Result<Seq<CommandModel>, ReducerError> {
    txs_cmds(r, block, ctx, block.txs@)
}

/// Appends one command to the output.
pub fn push_cmd(out: &mut Vec<CRDTCommand>, c: CRDTCommand)
    ensures
        commands_model(final(out)@) == commands_model(old(out)@).push(c@),
{
    let ghost c_model = c@;
    out.push(c);
    assert(commands_model(out@) =~= commands_model(old(out)@).push(c_model));
}

fn emit_spent<R: VotingRule>(r: &R, block: &Block, ctx: &BlockContext, input: &OutputRef, out: &mut Vec<CRDTCommand>) -> (res: Result<(), ReducerError>)
    ensures
        match spent_cmds(*r, *block, *ctx, *input) {
            Ok(x) => res is Ok && commands_model(final(out)@) == commands_model(old(out)@) + x,
            Err(e) => res == Err::<(), ReducerError>(e),
        },
{
    let o = match ctx.find_utxo(input) {
        Ok(o) => o,
        Err(_) => {
            if r.runtime().missing_utxo == ErrorAction::Fail {
                return Err(ReducerError::MissingUtxo);
            }
            assert(commands_model(out@) =~= commands_model(out@) + seq![]);
            return Ok(());
        },
    };
    let counts = match r.owner(block, o) {
        Some(_) => match tokens_amount(r.policy_hex(), o) {
            Some(a) => a != 0,
            None => true,
        },
        None => false,
    };
    if counts {
        let c = CRDTCommand::VotingPowerSpent {
            tx_id: hex_encode(input.tx_hash.as_slice()),
            tx_idx: input.index as u64,
            point: block.point_exec(),
        };
        push_cmd(out, c);
    } else {
        assert(commands_model(out@) =~= commands_model(out@) + seq![]);
    }
    Ok(())
}

fn emit_created<R: VotingRule>(r: &R, block: &Block, tx: &Tx, idx: usize, out: &mut Vec<CRDTCommand>) -> (res: Result<(), ReducerError>)
    requires
        idx < tx.outputs@.len(),
    ensures
        match created_cmds(*r, *block, *tx, idx as int, tx.outputs@[idx as int]) {
            Ok(x) => res is Ok && commands_model(final(out)@) == commands_model(old(out)@) + x,
            Err(e) => res == Err::<(), ReducerError>(e),
        },
{
    let o = &tx.outputs[idx];
    match r.owner(block, o) {
        None => {
            assert(commands_model(out@) =~= commands_model(out@) + seq![]);
            Ok(())
        },
        Some(owner) => match tokens_amount(r.policy_hex(), o) {
            None => Err(ReducerError::AmountOverflow),
            Some(amount) => {
                if amount != 0 {
                    let c = CRDTCommand::VotingPowerCreated {
                        owner,
                        policy: r.tag(),
                        token: String::new(),
                        amount,
                        point: block.point_exec(),
                        tx_id: hex_encode(tx.hash.as_slice()),
                        tx_idx: idx as u64,
                    };
                    push_cmd(out, c);
                } else {
                    assert(commands_model(out@) =~= commands_model(out@) + seq![]);
                }
                Ok(())
            },
        },
    }
}

fn emit_tx<R: VotingRule>(r: &R, block: &Block, ctx: &BlockContext, tx: &Tx, out: &mut Vec<CRDTCommand>) -> (res: Result<(), ReducerError>)
    ensures
        match tx_cmds(*r, *block, *ctx, *tx) {
            Ok(x) => res is Ok && commands_model(final(out)@) == commands_model(old(out)@) + x,
            Err(e) => res == Err::<(), ReducerError>(e),
        },
{
    let ghost base = commands_model(out@);
    let ghost mut acc: Seq<CommandModel> = seq![];
    let mut i: usize = 0;
    assert(tx.inputs@.take(0) =~= seq![]);
    while i < tx.inputs.len()
        invariant
            i <= tx.inputs@.len(),
            spent_all(*r, *block, *ctx, tx.inputs@.take(i as int)) == Ok::<Seq<CommandModel>, ReducerError>(acc),
            commands_model(out@) == base + acc,
        decreases tx.inputs.len() - i,
    {
        assert(tx.inputs@.take(i + 1).drop_last() =~= tx.inputs@.take(i as int));
        let res = emit_spent(r, block, ctx, &tx.inputs[i], out);
        if res.is_err() {
            proof {
                lemma_spent_err_prefix(*r, *block, *ctx, tx.inputs@, i + 1);
            }
            return res;
        }
        proof {
            acc = acc + spent_cmds(*r, *block, *ctx, tx.inputs@[i as int])->Ok_0;
        }
        assert(commands_model(out@) =~= base + acc);
        i += 1;
    }
    assert(tx.inputs@.take(i as int) =~= tx.inputs@);
    let ghost spent = acc;
    let ghost mut made: Seq<CommandModel> = seq![];
    let mut j: usize = 0;
    assert(tx.outputs@.take(0) =~= seq![]);
    while j < tx.outputs.len()
        invariant
            j <= tx.outputs@.len(),
            spent_all(*r, *block, *ctx, tx.inputs@) == Ok::<Seq<CommandModel>, ReducerError>(spent),
            created_all(*r, *block, *tx, tx.outputs@.take(j as int)) == Ok::<Seq<CommandModel>, ReducerError>(made),
            commands_model(out@) == base + spent + made,
        decreases tx.outputs.len() - j,
    {
        let ghost prefix = tx.outputs@.take(j + 1);
        assert(prefix.drop_last() =~= tx.outputs@.take(j as int));
        assert(prefix.last() == tx.outputs@[j as int]);
        let res = emit_created(r, block, tx, j, out);
        if res.is_err() {
            proof {
                lemma_created_err_prefix(*r, *block, *tx, tx.outputs@, j + 1);
            }
            return res;
        }
        proof {
            made = made + created_cmds(*r, *block, *tx, j as int, tx.outputs@[j as int])->Ok_0;
        }
        assert(commands_model(out@) =~= base + spent + made);
        j += 1;
    }
    assert(tx.outputs@.take(j as int) =~= tx.outputs@);
    assert(base + spent + made =~= base + (spent + made));
    Ok(())
}

/// Appends one reducer's commands for a block to `out`.
pub fn emit_block<R: VotingRule>(r: &R, block: &Block, ctx: &BlockContext, out: &mut Vec<CRDTCommand>) -> (res: Result<(), ReducerError>)
    ensures
        match block_cmds(*r, *block, *ctx) {
            Ok(x) => res is Ok && commands_model(final(out)@) == commands_model(old(out)@) + x,
            Err(e) => res == Err::<(), ReducerError>(e),
        },
{
    let ghost base = commands_model(out@);
    let ghost mut acc: Seq<CommandModel> = seq![];
    let mut i: usize = 0;
    assert(block.txs@.take(0) =~= seq![]);
    while i < block.txs.len()
        invariant
            i <= block.txs@.len(),
            txs_cmds(*r, *block, *ctx, block.txs@.take(i as int)) == Ok::<Seq<CommandModel>, ReducerError>(acc),
            commands_model(out@) == base + acc,
        decreases block.txs.len() - i,
    {
        assert(block.txs@.take(i + 1).drop_last() =~= block.txs@.take(i as int));
        let res = emit_tx(r, block, ctx, &block.txs[i], out);
        if res.is_err() {
            proof {
                lemma_txs_err_prefix(*r, *block, *ctx, block.txs@, i + 1);
            }
            return res;
        }
        proof {
            acc = acc + tx_cmds(*r, *block, *ctx, block.txs@[i as int])->Ok_0;
        }
        assert(commands_model(out@) =~= base + acc);
        i += 1;
    }
    assert(block.txs@.take(i as int) =~= block.txs@);
    Ok(())
}

proof fn lemma_spent_err_prefix<R: VotingRule>(r: R, block: Block, ctx: BlockContext, s: Seq<OutputRef>, i: int)
    requires
        0 <= i <= s.len(),
        spent_all(r, block, ctx, s.take(i)) is Err,
    ensures
        spent_all(r, block, ctx, s) == spent_all(r, block, ctx, s.take(i)),
    decreases s.len(),
{
    if i < s.len() {
        assert(s.drop_last().take(i) =~= s.take(i));
        lemma_spent_err_prefix(r, block, ctx, s.drop_last(), i);
    } else {
        assert(s.take(i) =~= s);
    }
}

proof fn lemma_created_err_prefix<R: VotingRule>(r: R, block: Block, tx: Tx, s: Seq<TxOutput>, i: int)
    requires
        0 <= i <= s.len(),
        created_all(r, block, tx, s.take(i)) is Err,
    ensures
        created_all(r, block, tx, s) == created_all(r, block, tx, s.take(i)),
    decreases s.len(),
{
    if i < s.len() {
        assert(s.drop_last().take(i) =~= s.take(i));
        lemma_created_err_prefix(r, block, tx, s.drop_last(), i);
    } else {
        assert(s.take(i) =~= s);
    }
}

proof fn lemma_txs_err_prefix<R: VotingRule>(r: R, block: Block, ctx: BlockContext, s: Seq<Tx>, i: int)
    requires
        0 <= i <= s.len(),
        txs_cmds(r, block, ctx, s.take(i)) is Err,
    ensures
        txs_cmds(r, block, ctx, s) == txs_cmds(r, block, ctx, s.take(i)),
    decreases s.len(),
{
    if i < s.len() {
        assert(s.drop_last().take(i) =~= s.take(i));
        lemma_txs_err_prefix(r, block, ctx, s.drop_last(), i);
    } else {
        assert(s.take(i) =~= s);
    }
}

/// The reducers that a pipeline can be configured with.
#[derive(Clone, Debug, PartialEq, Eq)]
pub enum Config {
    BalanceByAddress(balance_by_address::Config),
    BalanceByGeniusStake(balance_by_genius_stake::Config),
}

impl Config {
    pub fn plugin(self, policy: &RuntimePolicy) -> (r: Reducer)
        ensures
            r == (match self {
                Config::BalanceByAddress(c) => Reducer::BalanceByAddress(
                    balance_by_address::Reducer { config: c, policy: *policy },
                ),
                Config::BalanceByGeniusStake(c) => Reducer::BalanceByGeniusStake(
                    balance_by_genius_stake::Reducer { config: c, policy: *policy },
                ),
            }),
    {
        match self {
            Config::BalanceByAddress(c) => c.plugin(policy),
            Config::BalanceByGeniusStake(c) => c.plugin(policy),
        }
    }
}

/// A configured reducer.
#[derive(Clone, Debug, PartialEq, Eq)]
pub enum Reducer {
    BalanceByAddress(balance_by_address::Reducer),
    BalanceByGeniusStake(balance_by_genius_stake::Reducer),
}

impl Reducer {
    /// The commands this reducer emits for a block.
    pub open spec fn cmds(self, block: Block, ctx: BlockContext) -> Result<Seq<CommandModel>, ReducerError> {
        match self {
            Reducer::BalanceByAddress(x) => block_cmds(x, block, ctx),
            Reducer::BalanceByGeniusStake(x) => block_cmds(x, block, ctx),
        }
    }

    pub fn reduce_block(&mut self, block: &Block, ctx: &BlockContext, output: &mut Vec<CRDTCommand>) -> (r: Result<(), ReducerError>)
        ensures
            *final(self) == *old(self),
            match old(self).cmds(*block, *ctx) {
                Ok(x) => r is Ok && commands_model(final(output)@) == commands_model(old(output)@) + x,
                Err(e) => r == Err::<(), ReducerError>(e),
            },
    {
        self.emit(block, ctx, output)
    }

    fn emit(&self, block: &Block, ctx: &BlockContext, output: &mut Vec<CRDTCommand>) -> (r: Result<(), ReducerError>)
        ensures
            match self.cmds(*block, *ctx) {
                Ok(x) => r is Ok && commands_model(final(output)@) == commands_model(old(output)@) + x,
                Err(e) => r == Err::<(), ReducerError>(e),
            },
    {
        match self {
            Reducer::BalanceByAddress(x) => emit_block(x, block, ctx, output),
            Reducer::BalanceByGeniusStake(x) => emit_block(x, block, ctx, output),
        }
    }
}

/// The commands of the reducers for a block, reducer by reducer in order.
pub open spec fn reducers_cmds(reducers: Seq<Reducer>, block: Block, ctx: BlockContext) -> Result<Seq<CommandModel>, ReducerError>
    decreases reducers.len(),
{
    if reducers.len() == 0 {
        Ok(seq![])
    } else {
        then_concat(reducers_cmds(reducers.drop_last(), block, ctx), reducers.last().cmds(block, ctx))
    }
}

/// What the reducer stage emits for a payload: for a block, the opening
/// command, every reducer's commands in order, and the closing command; for a
/// rollback, the rollback alone.
pub open spec fn stage_cmds(reducers: Seq<Reducer>, payload: EnrichedBlockPayload) -> Result<Seq<CommandModel>, ReducerError> {
    match payload {
        EnrichedBlockPayload::RollForward(block, ctx) => match reducers_cmds(reducers, block, ctx) {
            Ok(x) => Ok(seq![CommandModel::BlockStarting(block.point())] + x + seq![
                CommandModel::BlockFinished(block.point()),
            ]),
            Err(e) => Err(e),
        },
        EnrichedBlockPayload::RollBack(p) => Ok(seq![CommandModel::RollBack(p@)]),
    }
}

/// Runs the configured reducers over one payload.
pub fn process_payload(reducers: &Vec<Reducer>, payload: &EnrichedBlockPayload) -> (r: Result<Vec<CRDTCommand>, ReducerError>)
    ensures
        match stage_cmds(reducers@, *payload) {
            Ok(x) => r is Ok && commands_model(r->Ok_0@) == x,
            Err(e) => r == Err::<Vec<CRDTCommand>, ReducerError>(e),
        },
{
    match payload {
        EnrichedBlockPayload::RollBack(p) => {
            let mut out: Vec<CRDTCommand> = Vec::new();
            push_cmd(&mut out, CRDTCommand::rollback(p.copy()));
            assert(commands_model(out@) =~= seq![CommandModel::RollBack(p@)]);
            Ok(out)
        },
        EnrichedBlockPayload::RollForward(block, ctx) => {
            let mut out: Vec<CRDTCommand> = Vec::new();
            push_cmd(&mut out, CRDTCommand::block_starting(block));
            let ghost first = commands_model(out@);
            let ghost mut acc: Seq<CommandModel> = seq![];
            let mut i: usize = 0;
            assert(reducers@.take(0) =~= seq![]);
            while i < reducers.len()
                invariant
                    *payload == EnrichedBlockPayload::RollForward(*block, *ctx),
                    i <= reducers@.len(),
                    reducers_cmds(reducers@.take(i as int), *block, *ctx) == Ok::<Seq<CommandModel>, ReducerError>(acc),
                    commands_model(out@) == first + acc,
                decreases reducers.len() - i,
            {
                assert(reducers@.take(i + 1).drop_last() =~= reducers@.take(i as int));
                assert(reducers@.take(i + 1).last() == reducers@[i as int]);
                let res = reducers[i].emit(block, ctx, &mut out);
                match res {
                    Err(e) => {
                        proof {
                            lemma_reducers_err_prefix(reducers@, *block, *ctx, i + 1);
                        }
                        return Err(e);
                    },
                    Ok(_) => {},
                }
                proof {
                    acc = acc + reducers@[i as int].cmds(*block, *ctx)->Ok_0;
                }
                assert(commands_model(out@) =~= first + acc);
                i += 1;
            }
            assert(reducers@.take(i as int) =~= reducers@);
            push_cmd(&mut out, CRDTCommand::block_finished(block));
            Ok(out)
        },
    }
}

proof fn lemma_reducers_err_prefix(s: Seq<Reducer>, block: Block, ctx: BlockContext, i: int)
    requires
        0 <= i <= s.len(),
        reducers_cmds(s.take(i), block, ctx) is Err,
    ensures
        reducers_cmds(s, block, ctx) == reducers_cmds(s.take(i), block, ctx),
    decreases s.len(),
{
    if i < s.len() {
        assert(s.drop_last().take(i) =~= s.take(i));
        lemma_reducers_err_prefix(s.drop_last(), block, ctx, i);
    } else {
        assert(s.take(i) =~= s);
    }
}

/// A command that changes voting-power records, as opposed to one that opens
/// or closes a block or rolls back.
pub open spec fn is_mutation(c: CommandModel) -> bool {
    c is VotingPowerCreated || c is VotingPowerSpent || c is VotingPowerChange
}

/// A creation record with an amount, or a spend record.
pub open spec fn is_record(c: CommandModel) -> bool {
    match c {
        CommandModel::VotingPowerCreated { amount, .. } => amount != 0,
        CommandModel::VotingPowerSpent { .. } => true,
        _ => false,
    }
}

pub open spec fn all_mutations(s: Seq<CommandModel>) -> bool {
    forall|i: int| 0 <= i < s.len() ==> is_record(#[trigger] s[i])
}

proof fn lemma_concat_mutations<E>(a: Result<Seq<CommandModel>, E>, b: Result<Seq<CommandModel>, E>)
    requires
        a matches Ok(x) ==> all_mutations(x),
        b matches Ok(y) ==> all_mutations(y),
    ensures
        then_concat(a, b) matches Ok(z) ==> all_mutations(z),
{
    if let (Ok(x), Ok(y)) = (a, b) {
        assert forall|i: int| 0 <= i < (x + y).len() implies is_record(#[trigger] (x + y)[i]) by {
            if i < x.len() {
                assert((x + y)[i] == x[i]);
            } else {
                assert((x + y)[i] == y[i - x.len()]);
            }
        }
    }
}

proof fn lemma_block_cmds_mutations<R: VotingRule>(r: R, block: Block, ctx: BlockContext)
    ensures
        block_cmds(r, block, ctx) matches Ok(x) ==> all_mutations(x),
{
    lemma_txs_mutations(r, block, ctx, block.txs@);
}

proof fn lemma_txs_mutations<R: VotingRule>(r: R, block: Block, ctx: BlockContext, txs: Seq<Tx>)
    ensures
        txs_cmds(r, block, ctx, txs) matches Ok(x) ==> all_mutations(x),
    decreases txs.len(),
{
    if txs.len() > 0 {
        let tx = txs.last();
        lemma_txs_mutations(r, block, ctx, txs.drop_last());
        lemma_spent_mutations(r, block, ctx, tx.inputs@);
        lemma_created_mutations(r, block, tx, tx.outputs@);
        lemma_concat_mutations(spent_all(r, block, ctx, tx.inputs@), created_all(r, block, tx, tx.outputs@));
        lemma_concat_mutations(txs_cmds(r, block, ctx, txs.drop_last()), tx_cmds(r, block, ctx, tx));
    }
}

proof fn lemma_spent_mutations<R: VotingRule>(r: R, block: Block, ctx: BlockContext, inputs: Seq<OutputRef>)
    ensures
        spent_all(r, block, ctx, inputs) matches Ok(x) ==> all_mutations(x),
    decreases inputs.len(),
{
    if inputs.len() > 0 {
        lemma_spent_mutations(r, block, ctx, inputs.drop_last());
        lemma_concat_mutations(spent_all(r, block, ctx, inputs.drop_last()), spent_cmds(r, block, ctx, inputs.last()));
    }
}

proof fn lemma_created_mutations<R: VotingRule>(r: R, block: Block, tx: Tx, outputs: Seq<TxOutput>)
    ensures
        created_all(r, block, tx, outputs) matches Ok(x) ==> all_mutations(x),
    decreases outputs.len(),
{
    if outputs.len() > 0 {
        lemma_created_mutations(r, block, tx, outputs.drop_last());
        let o = outputs.last();
        if let Some(p) = r.policy_hex_spec() {
            lemma_policy_total_nonneg(o.assets@, p@);
        }
        if let Some(owner) = r.owner_spec(block, o) {
            let amount = selected_amount(o, r.policy_hex_spec());
            if 0 < amount <= u64::MAX {
                assert((amount as u64) != 0);
                if let Ok(y) = created_cmds(r, block, tx, outputs.len() - 1, o) {
                    assert(is_record(y[0]));
                    assert(all_mutations(y));
                }
            }
        }
        lemma_concat_mutations(
            created_all(r, block, tx, outputs.drop_last()),
            created_cmds(r, block, tx, outputs.len() - 1, outputs.last()),
        );
    }
}

proof fn lemma_reducers_mutations(reducers: Seq<Reducer>, block: Block, ctx: BlockContext)
    ensures
        reducers_cmds(reducers, block, ctx) matches Ok(x) ==> all_mutations(x),
    decreases reducers.len(),
{
    if reducers.len() > 0 {
        lemma_reducers_mutations(reducers.drop_last(), block, ctx);
        match reducers.last() {
            Reducer::BalanceByAddress(x) => lemma_block_cmds_mutations(x, block, ctx),
            Reducer::BalanceByGeniusStake(x) => lemma_block_cmds_mutations(x, block, ctx),
        }
        lemma_concat_mutations(reducers_cmds(reducers.drop_last(), block, ctx), reducers.last().cmds(block, ctx));
    }
}

/// Each block's stream opens with exactly one `BlockStarting` of the block's
/// point and closes with exactly one `BlockFinished` of it; everything
/// between changes voting-power records, so no other block opens, closes or
/// rolls back inside it.
pub proof fn lemma_block_framed(reducers: Seq<Reducer>, block: Block, ctx: BlockContext)
    ensures
        stage_cmds(reducers, EnrichedBlockPayload::RollForward(block, ctx)) matches Ok(s) ==> {
            &&& s.len() >= 2
            &&& s[0] == CommandModel::BlockStarting(block.point())
            &&& s[s.len() - 1] == CommandModel::BlockFinished(block.point())
            &&& forall|i: int| 1 <= i < s.len() - 1 ==> is_mutation(#[trigger] s[i])
        },
{
    lemma_reducers_mutations(reducers, block, ctx);
    if let Ok(x) = reducers_cmds(reducers, block, ctx) {
        let s = seq![CommandModel::BlockStarting(block.point())] + x + seq![CommandModel::BlockFinished(block.point())];
        assert forall|i: int| 1 <= i < s.len() - 1 implies is_mutation(#[trigger] s[i]) by {
            assert(s[i] == x[i - 1]);
            assert(is_record(x[i - 1]));
        }
    }
}

/// No record with a zero amount is emitted: every creation record of a
/// block's stream carries a non-zero amount.
pub proof fn lemma_no_zero_records(reducers: Seq<Reducer>, block: Block, ctx: BlockContext)
    ensures
        stage_cmds(reducers, EnrichedBlockPayload::RollForward(block, ctx)) matches Ok(s) ==>
            forall|i: int| 0 <= i < s.len() ==> match #[trigger] s[i] {
                CommandModel::VotingPowerCreated { amount, .. } => amount != 0,
                _ => true,
            },
{
    lemma_reducers_mutations(reducers, block, ctx);
    if let Ok(x) = reducers_cmds(reducers, block, ctx) {
        let s = seq![CommandModel::BlockStarting(block.point())] + x + seq![CommandModel::BlockFinished(block.point())];
        assert forall|i: int| 0 <= i < s.len() implies match #[trigger] s[i] {
            CommandModel::VotingPowerCreated { amount, .. } => amount != 0,
            _ => true,
        } by {
            if 1 <= i < s.len() - 1 {
                assert(s[i] == x[i - 1]);
                assert(is_record(x[i - 1]));
            }
        }
    }
}

} // verus!
