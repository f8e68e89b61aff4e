//! Voting power locked at a staking script: outputs at the configured script
//! address count for the owner that their datum names.
use vstd::prelude::*;
use crate::model::{
    AddressModel, Block, BlockContext, CRDTCommand, DatumOption, PlutusData, RuntimePolicy,
    ShelleyAddress, TxOutput, WitnessDatum, bytes_eq, copy_bytes,
};
use crate::model::commands_model;
use crate::reducers::{block_cmds, emit_block, ReducerError, VotingRule};

verus! {

#[derive(Clone, Debug, PartialEq, Eq)]
pub struct Config {
    /// The tag under which records are kept.
    pub key_prefix: String,
    /// The policy id (in hex) whose assets count; lovelace counts where unset.
    pub policy_id_hex: Option<String>,
    /// The textual address of the staking script.
    pub script_address: String,
}

#[derive(Clone, Debug, PartialEq, Eq)]
pub struct Reducer {
    pub config: Config,
    pub policy: RuntimePolicy,
}

/// The Blake2b-256 digest of a byte string.
pub uninterp spec fn blake2b_256(b: Seq<u8>) -> Seq<u8>;

/// Relies on pallas_crypto's `Hasher::<256>::hash`: the Blake2b-256 digest of
/// the bytes, 32 bytes long. A datum's hash is that digest of its encoding.
#[verifier::external_body]
fn datum_hash(cbor: &Vec<u8>) -> (r: Vec<u8>)
    ensures
        r@ == blake2b_256(cbor@),
        r@.len() == 32,
{
    pallas::crypto::hash::Hasher::<256>::hash(cbor.as_slice()).to_vec()
}

/// Among the first `n` witness datums, the last one whose hash in `hashes`
/// (position for position) is `h`.
pub open spec fn pick_by_hash(ws: Seq<WitnessDatum>, hashes: Seq<Seq<u8>>, h: Seq<u8>, n: int) -> Option<PlutusData>
    decreases n,
{
    if n <= 0 {
        None
    } else if hashes[n - 1] == h {
        Some(ws[n - 1].data)
    } else {
        pick_by_hash(ws, hashes, h, n - 1)
    }
}

pub open spec fn min_len(a: int, b: int) -> int {
    if a <= b {
        a
    } else {
        b
    }
}

/// The hashes of the witness datums.
pub open spec fn witness_hashes_spec(ws: Seq<WitnessDatum>) -> Seq<Seq<u8>> {
    ws.map_values(|w: WitnessDatum| blake2b_256(w.cbor@))
}

/// The witness datum whose hash is `h`; the last one where several are.
pub open spec fn find_witness(ws: Seq<WitnessDatum>, h: Seq<u8>) -> Option<PlutusData> {
    pick_by_hash(ws, witness_hashes_spec(ws), h, ws.len() as int)
}

/// The fields of a constructor.
pub open spec fn constr_fields(d: PlutusData) -> Option<Seq<PlutusData>> {
    match d {
        PlutusData::Constr(_, f) => Some(f@),
        _ => None,
    }
}

/// The 28-byte key hash that a constructor holds as its first field.
pub open spec fn key_hash_in(d: PlutusData) -> Option<Seq<u8>> {
    match d {
        PlutusData::Constr(_, f) => if f@.len() > 0 {
            match f@[0] {
                PlutusData::BoundedBytes(b) => if b@.len() == 28 {
                    Some(b@)
                } else {
                    None
                },
                _ => None,
            }
        } else {
            None
        },
        _ => None,
    }
}

/// The owner that a staking datum names. The datum is a constructor whose
/// field 1 is the address: a constructor whose field 0 holds the payment key
/// hash, and whose field 1 wraps (optionally) a stake credential that holds
/// the stake key hash.
pub open spec fn datum_owner(d: PlutusData) -> Option<AddressModel> {
    match constr_fields(d) {
        Some(fields) if fields.len() > 1 => match constr_fields(fields[1]) {
            Some(addr) if addr.len() > 1 => match (key_hash_in(addr[0]), constr_fields(addr[1])) {
                (Some(payment), Some(wrapped)) if wrapped.len() > 0 => match constr_fields(wrapped[0]) {
                    Some(cred) if cred.len() > 0 => match key_hash_in(cred[0]) {
                        Some(stake) => Some(AddressModel { payment, delegation: stake }),
                        None => None,
                    },
                    _ => None,
                },
                _ => None,
            },
            _ => None,
        },
        _ => None,
    }
}

/// The owner of an output at the script address, from its inline datum or
/// from the witness datum that its datum hash names.
pub open spec fn output_owner(script_address: Seq<char>, block: Block, o: TxOutput) -> Option<AddressModel> {
    if o.address_text@ != script_address {
        None
    } else {
        match o.datum {
            Some(DatumOption::Data(d)) => datum_owner(d),
            Some(DatumOption::Hash(h)) => match find_witness(block.witness_datums@, h@) {
                Some(d) => datum_owner(d),
                None => None,
            },
            None => None,
        }
    }
}

fn get_constr(data: &PlutusData) -> (r: Option<&Vec<PlutusData>>)
    ensures
        match r {
            Some(f) => constr_fields(*data) == Some(f@),
            None => constr_fields(*data) is None,
        },
{
    match data {
        PlutusData::Constr(_, fields) => Some(fields),
        _ => None,
    }
}

fn get_bytes(data: &PlutusData) -> (r: Option<&Vec<u8>>)
    ensures
        match r {
            Some(b) => key_hash_in(*data) == Some(b@),
            None => key_hash_in(*data) is None,
        },
{
    match data {
        PlutusData::Constr(_, fields) => {
            if fields.len() == 0 {
                return None;
            }
            match &fields[0] {
                PlutusData::BoundedBytes(b) => if b.len() == 28 {
                    Some(b)
                } else {
                    None
                },
                _ => None,
            }
        },
        _ => None,
    }
}

/// The Shelley address that a staking datum names, if it has that shape.
pub fn datum_to_address(datum: &PlutusData) -> (r: Option<ShelleyAddress>)
    ensures
        match r {
            Some(a) => datum_owner(*datum) == Some(a@),
            None => datum_owner(*datum) is None,
        },
{
    let fields = get_constr(datum)?;
    if fields.len() < 2 {
        return None;
    }
    let addr = get_constr(&fields[1])?;
    if addr.len() < 2 {
        return None;
    }
    let spending = get_bytes(&addr[0])?;
    let wrapped = get_constr(&addr[1])?;
    if wrapped.len() == 0 {
        return None;
    }
    let cred = get_constr(&wrapped[0])?;
    if cred.len() == 0 {
        return None;
    }
    let staking = get_bytes(&cred[0])?;
    Some(ShelleyAddress { payment: copy_bytes(spending), delegation: copy_bytes(staking) })
}

/// The hashes of the block's witness datums, in order.
pub fn witness_hashes(block: &Block) -> (r: Vec<Vec<u8>>)
    ensures
        r@.map_values(|v: Vec<u8>| v@) == witness_hashes_spec(block.witness_datums@),
{
    let ws = &block.witness_datums;
    let mut r: Vec<Vec<u8>> = Vec::new();
    let mut i: usize = 0;
    while i < ws.len()
        invariant
            ws@ == block.witness_datums@,
            i <= ws@.len(),
            r@.len() == i,
            forall|j: int| 0 <= j < i ==> (#[trigger] r@[j])@ == blake2b_256(ws@[j].cbor@),
        decreases ws.len() - i,
    {
        r.push(datum_hash(&ws[i].cbor));
        i += 1;
    }
    assert(r@.map_values(|v: Vec<u8>| v@) =~= witness_hashes_spec(ws@));
    r
}

/// The last witness datum whose hash, as given in `hashes` position for
/// position, is `hash`.
pub fn select_witness<'a>(ws: &'a Vec<WitnessDatum>, hashes: &Vec<Vec<u8>>, hash: &Vec<u8>) -> (r: Option<&'a PlutusData>)
    ensures
        match r {
            Some(d) => pick_by_hash(ws@, hashes@.map_values(|v: Vec<u8>| v@), hash@, min_len(ws@.len() as int, hashes@.len() as int)) == Some(*d),
            None => pick_by_hash(ws@, hashes@.map_values(|v: Vec<u8>| v@), hash@, min_len(ws@.len() as int, hashes@.len() as int)) is None,
        },
{
    let ghost hs = hashes@.map_values(|v: Vec<u8>| v@);
    let mut i: usize = if ws.len() <= hashes.len() {
        ws.len()
    } else {
        hashes.len()
    };
    while i > 0
        invariant
            i <= ws@.len(),
            i <= hashes@.len(),
            hs == hashes@.map_values(|v: Vec<u8>| v@),
            pick_by_hash(ws@, hs, hash@, min_len(ws@.len() as int, hashes@.len() as int)) == pick_by_hash(ws@, hs, hash@, i as int),
        decreases i,
    {
        if bytes_eq(&hashes[i - 1], hash) {
            return Some(&ws[i - 1].data);
        }
        i -= 1;
    }
    None
}

/// The witness datum of the block whose hash is `hash`.
pub fn find_witness_datum<'a>(block: &'a Block, hash: &Vec<u8>) -> (r: Option<&'a PlutusData>)
    ensures
        match r {
            Some(d) => find_witness(block.witness_datums@, hash@) == Some(*d),
            None => find_witness(block.witness_datums@, hash@) is None,
        },
{
    let hashes = witness_hashes(block);
    assert(hashes@.len() == block.witness_datums@.len()) by {
        assert(hashes@.map_values(|v: Vec<u8>| v@).len() == hashes@.len());
    }
    select_witness(&block.witness_datums, &hashes, hash)
}

impl VotingRule for Reducer {
    open spec fn owner_spec(&self, block: Block, o: TxOutput) -> Option<AddressModel> {
        output_owner(self.config.script_address@, block, o)
    }

    open spec fn tag_spec(&self) -> Seq<char> {
        self.config.key_prefix@
    }

    open spec fn policy_hex_spec(&self) -> Option<String> {
        self.config.policy_id_hex
    }

    open spec fn runtime_spec(&self) -> RuntimePolicy {
        self.policy
    }

    fn owner(&self, block: &Block, o: &TxOutput) -> (r: Option<ShelleyAddress>) {
        if o.address_text != self.config.script_address {
            return None;
        }
        match &o.datum {
            Some(DatumOption::Data(d)) => datum_to_address(d),
            Some(DatumOption::Hash(h)) => match find_witness_datum(block, h) {
                Some(d) => datum_to_address(d),
                None => None,
            },
            None => None,
        }
    }

    fn tag(&self) -> (r: String) {
        self.config.key_prefix.clone()
    }

    fn policy_hex(&self) -> (r: &Option<String>) {
        &self.config.policy_id_hex
    }

    fn runtime(&self) -> (r: RuntimePolicy) {
        self.policy
    }
}

impl Reducer {
    /// Appends the block's commands to `output`: per transaction, a spend
    /// record for each consumed output at the script whose datum names an
    /// owner, then a creation record, attributed to that owner, for each
    /// produced one.
    pub fn reduce_block(&mut self, block: &Block, ctx: &BlockContext, output: &mut Vec<CRDTCommand>) -> (r: Result<(), ReducerError>)
        ensures
            *final(self) == *old(self),
            match block_cmds(*old(self), *block, *ctx) {
                Ok(x) => r is Ok && commands_model(final(output)@) == commands_model(old(output)@) + x,
                Err(e) => r == Err::<(), ReducerError>(e),
            },
    {
        emit_block(&*self, block, ctx, output)
    }
}

impl Config {
    pub fn plugin(self, policy: &RuntimePolicy) -> (r: super::Reducer)
        ensures
            r == super::Reducer::BalanceByGeniusStake(Reducer { config: self, policy: *policy }),
    {
        super::Reducer::BalanceByGeniusStake(Reducer { config: self, policy: *policy })
    }
}

} // verus!
