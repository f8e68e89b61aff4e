//! Voting power held by plain Shelley addresses: every output with a
//! Shelley address counts for that address.
use vstd::prelude::*;
use crate::model::{
    Address, AddressModel, Block, BlockContext, CRDTCommand, RuntimePolicy, ShelleyAddress, TxOutput,
};
use crate::model::commands_model;
use crate::reducers::{block_cmds, created_cmds, emit_block, spent_cmds, ReducerError, VotingRule};
use crate::model::{OutputRef, Tx};

verus! {

#[derive(Clone, Debug, PartialEq, Eq)]
pub struct Config {
    /// The tag under which records are kept.
    pub key_prefix: Option<String>,
    /// The policy id (in hex) whose assets count; lovelace counts where unset.
    pub policy_id_hex: Option<String>,
}

#[derive(Clone, Debug, PartialEq, Eq)]
pub struct Reducer {
    pub config: Config,
    pub policy: RuntimePolicy,
}

impl VotingRule for Reducer {
    open spec fn owner_spec(&self, block: Block, o: TxOutput) -> Option<AddressModel> {
        match o.address {
            Address::Shelley(a) => Some(a@),
            Address::Other => None,
        }
    }

    /// The key prefix; else the policy id; else empty.
    open spec fn tag_spec(&self) -> Seq<char> {
        match self.config.key_prefix {
            Some(k) => k@,
            None => match self.config.policy_id_hex {
                Some(p) => p@,
                None => seq![],
            },
        }
    }

    open spec fn policy_hex_spec(&self) -> Option<String> {
        self.config.policy_id_hex
    }

    open spec fn runtime_spec(&self) -> RuntimePolicy {
        self.policy
    }

    fn owner(&self, block: &Block, o: &TxOutput) -> (r: Option<ShelleyAddress>) {
        match &o.address {
            Address::Shelley(a) => Some(a.copy()),
            Address::Other => None,
        }
    }

    fn tag(&self) -> (r: String) {
        match &self.config.key_prefix {
            Some(k) => k.clone(),
            None => match &self.config.policy_id_hex {
                Some(p) => p.clone(),
                None => String::new(),
            },
        }
    }

    fn policy_hex(&self) -> (r: &Option<String>) {
        &self.config.policy_id_hex
    }

    fn runtime(&self) -> (r: RuntimePolicy) {
        self.policy
    }
}

impl Reducer {
    /// Appends the block's commands to `output`: per transaction, a spend
    /// record for each consumed output that counts, then a creation record
    /// for each produced one.
    pub fn reduce_block(&mut self, block: &Block, ctx: &BlockContext, output: &mut Vec<CRDTCommand>) -> (r: Result<(), ReducerError>)
        ensures
            *final(self) == *old(self),
            match block_cmds(*old(self), *block, *ctx) {
                Ok(x) => r is Ok && commands_model(final(output)@) == commands_model(old(output)@) + x,
                Err(e) => r == Err::<(), ReducerError>(e),
            },
    {
        emit_block(&*self, block, ctx, output)
    }
}

impl Config {
    pub fn plugin(self, policy: &RuntimePolicy) -> (r: super::Reducer)
        ensures
            r == super::Reducer::BalanceByAddress(Reducer { config: self, policy: *policy }),
    {
        super::Reducer::BalanceByAddress(Reducer { config: self, policy: *policy })
    }
}

/// An output whose address is not a Shelley address is passed over without
/// error: produced, it yields no command; consumed, neither.
pub proof fn lemma_non_shelley_skipped(r: Reducer, block: Block, ctx: BlockContext, tx: Tx, idx: int, o: TxOutput, input: OutputRef)
    requires
        o.address is Other,
    ensures
        created_cmds(r, block, tx, idx, o) == Ok::<Seq<crate::model::CommandModel>, ReducerError>(seq![]),
        ctx.find(input) == Some(o) ==> spent_cmds(r, block, ctx, input) == Ok::<Seq<crate::model::CommandModel>, ReducerError>(seq![]),
{
}

} // verus!
