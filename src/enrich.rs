//! The enricher: lists what a block's transactions consume and builds the
//! block context from what the UTXO resolver found for each.
use vstd::prelude::*;
use crate::model::{
    Block, BlockContext, ErrorAction, OutputRef, RuntimePolicy, Tx, TxOutput, copy_bytes, same_ref,
};

verus! {

/// Why a block could not be enriched.
#[derive(Clone, Copy, Debug, PartialEq, Eq, Structural)]
pub enum EnrichError {
    /// The resolver found no output for a consumed reference and the
    /// runtime policy asks to fail on such misses.
    MissingUtxo,
}

/// Every input of the transactions, in order.
pub open spec fn all_inputs(txs: Seq<Tx>) -> Seq<OutputRef>
    decreases txs.len(),
{
    if txs.len() == 0 {
        seq![]
    } else {
        all_inputs(txs.drop_last()) + txs.last().inputs@
    }
}

/// The references of `a` and `b` name the same outputs, in the same order.
pub open spec fn same_refs(a: Seq<OutputRef>, b: Seq<OutputRef>) -> bool {
    a.len() == b.len() && forall|i: int| 0 <= i < a.len() ==> same_ref(#[trigger] a[i], b[i])
}

/// The references that the block's transactions consume, in order.
pub fn consumed_refs(block: &Block) -> (r: Vec<OutputRef>)
    ensures
        same_refs(r@, all_inputs(block.txs@)),
{
    let mut r: Vec<OutputRef> = Vec::new();
    let mut i: usize = 0;
    assert(block.txs@.take(0) =~= seq![]);
    while i < block.txs.len()
        invariant
            i <= block.txs@.len(),
            same_refs(r@, all_inputs(block.txs@.take(i as int))),
        decreases block.txs.len() - i,
    {
        let tx = &block.txs[i];
        let ghost prev = all_inputs(block.txs@.take(i as int));
        assert(block.txs@.take(i + 1).drop_last() =~= block.txs@.take(i as int));
        assert(block.txs@.take(i + 1).last() == *tx);
        let mut j: usize = 0;
        while j < tx.inputs.len()
            invariant
                j <= tx.inputs@.len(),
                same_refs(r@, prev + tx.inputs@.take(j as int)),
            decreases tx.inputs.len() - j,
        {
            let input = &tx.inputs[j];
            r.push(OutputRef { tx_hash: copy_bytes(&input.tx_hash), index: input.index });
            assert(prev + tx.inputs@.take(j + 1) =~= (prev + tx.inputs@.take(j as int)).push(tx.inputs@[j as int]));
            j += 1;
        }
        assert(tx.inputs@.take(j as int) =~= tx.inputs@);
        i += 1;
    }
    assert(block.txs@.take(i as int) =~= block.txs@);
    r
}

/// The resolved entries, in order, without the misses.
pub open spec fn kept(s: Seq<(OutputRef, Option<TxOutput>)>) -> Seq<(OutputRef, TxOutput)>
    decreases s.len(),
{
    if s.len() == 0 {
        seq![]
    } else {
        match s.last().1 {
            Some(o) => kept(s.drop_last()).push((s.last().0, o)),
            None => kept(s.drop_last()),
        }
    }
}

pub open spec fn any_missing(s: Seq<(OutputRef, Option<TxOutput>)>) -> bool {
    exists|i: int| 0 <= i < s.len() && (#[trigger] s[i]).1 is None
}

/// Builds a block's context from each consumed reference and what the
/// resolver found for it. A miss fails the block where the policy says so,
/// and is left out of the context otherwise.
pub fn build_context(resolved: Vec<(OutputRef, Option<TxOutput>)>, policy: &RuntimePolicy) -> (r: Result<BlockContext, EnrichError>)
    ensures
        policy.missing_utxo == ErrorAction::Fail && any_missing(resolved@) ==> r == Err::<BlockContext, EnrichError>(EnrichError::MissingUtxo),
        !(policy.missing_utxo == ErrorAction::Fail && any_missing(resolved@)) ==> (r matches Ok(ctx) && ctx.utxos@ == kept(resolved@)),
{
    let ghost all = resolved@;
    let mut pending = resolved;
    let mut reversed: Vec<(OutputRef, Option<TxOutput>)> = Vec::new();
    while pending.len() > 0
        invariant
            all == pending@ + reversed@.reverse(),
        decreases pending.len(),
    {
        let item = pending.pop().unwrap();
        let ghost before = reversed@;
        reversed.push(item);
        assert(reversed@.reverse() =~= seq![item] + before.reverse());
    }
    assert(all =~= reversed@.reverse());
    let mut ctx = BlockContext::new();
    let ghost mut done: Seq<(OutputRef, Option<TxOutput>)> = seq![];
    while reversed.len() > 0
        invariant
            all == resolved@,
            all == done + reversed@.reverse(),
            ctx.utxos@ == kept(done),
            !any_missing(done) || policy.missing_utxo != ErrorAction::Fail,
        decreases reversed.len(),
    {
        let (key, found) = reversed.pop().unwrap();
        let ghost item = (key, found);
        let ghost rest = reversed@;
        assert(rest.push(item).reverse() =~= seq![item] + rest.reverse());
        let ghost prev = done;
        proof {
            done = done.push(item);
        }
        assert(done.drop_last() =~= prev);
        assert(done.last() == item);
        match found {
            Some(o) => {
                ctx.import_ref_output(key, o);
            },
            None => {
                if policy.missing_utxo == ErrorAction::Fail {
                    assert(all[done.len() - 1] == item);
                    assert(all[done.len() - 1].1 is None);
                    assert(any_missing(all));
                    return Err(EnrichError::MissingUtxo);
                }
            },
        }
        assert(all == done + reversed@.reverse());
    }
    assert(done =~= all);
    Ok(ctx)
}

} // verus!
