use pallas::crypto::hash::Hasher;
use scrolls::model::{
    Address, Block, BlockContext, CRDTCommand, DatumOption, ErrorAction, EnrichedBlockPayload, NativeAsset,
    OutputRef, PlutusData, Point, RuntimePolicy, ShelleyAddress, Tx, TxOutput, WitnessDatum,
};
use scrolls::reducers::{balance_by_address, balance_by_genius_stake, process_payload, Reducer, ReducerError};
use scrolls::storage::postgres::{CursorRow, Database};

fn policy(missing: ErrorAction) -> RuntimePolicy {
    RuntimePolicy { missing_utxo: missing, decode_error: ErrorAction::Skip }
}

fn shelley(p: u8, s: u8) -> ShelleyAddress {
    ShelleyAddress { payment: vec![p; 28], delegation: vec![s; 28] }
}

fn lovelace_out(addr: ShelleyAddress, amount: u64) -> TxOutput {
    TxOutput {
        address: Address::Shelley(addr),
        address_text: String::from("addr_plain"),
        lovelace: amount,
        assets: vec![],
        datum: None,
    }
}

fn by_address(prefix: &str, policy_hex: Option<&str>, missing: ErrorAction) -> Reducer {
    balance_by_address::Config {
        key_prefix: Some(prefix.to_string()),
        policy_id_hex: policy_hex.map(|p| p.to_string()),
    }
    .plugin(&policy(missing))
}

fn block(slot: u64, hash: u8, txs: Vec<Tx>) -> Block {
    Block { slot, hash: vec![hash; 32], txs, witness_datums: vec![] }
}

fn point(slot: u64, hash: u8) -> Point {
    Point::Specific(slot, vec![hash; 32])
}

fn run(reducers: &Vec<Reducer>, b: Block, ctx: BlockContext) -> Vec<CRDTCommand> {
    process_payload(reducers, &EnrichedBlockPayload::RollForward(b, ctx)).unwrap()
}

fn apply_all(db: &mut Database, cmds: Vec<CRDTCommand>) {
    for c in cmds {
        db.apply(c).unwrap();
    }
}

fn hex_repeat(byte: &str, n: usize) -> String {
    byte.repeat(n)
}

#[test]
fn single_lovelace_transfer() {
    let reducers = vec![by_address("lovelace", None, ErrorAction::Skip)];
    let mut db = Database::new();
    let earlier = block(50, 0x50, vec![Tx { hash: vec![0x01; 32], inputs: vec![], outputs: vec![lovelace_out(shelley(0xa1, 0xa2), 1_000_000)] }]);
    apply_all(&mut db, run(&reducers, earlier, BlockContext::new()));

    let mut ctx = BlockContext::new();
    ctx.import_ref_output(OutputRef { tx_hash: vec![0x01; 32], index: 0 }, lovelace_out(shelley(0xa1, 0xa2), 1_000_000));
    let b = block(100, 0xaa, vec![Tx {
        hash: vec![0x02; 32],
        inputs: vec![OutputRef { tx_hash: vec![0x01; 32], index: 0 }],
        outputs: vec![lovelace_out(shelley(0xb1, 0xb2), 1_000_000)],
    }]);
    let cmds = run(&reducers, b, ctx);
    assert_eq!(cmds, vec![
        CRDTCommand::BlockStarting(point(100, 0xaa)),
        CRDTCommand::VotingPowerSpent { tx_id: hex_repeat("01", 32), tx_idx: 0, point: point(100, 0xaa) },
        CRDTCommand::VotingPowerCreated {
            owner: shelley(0xb1, 0xb2),
            policy: String::from("lovelace"),
            token: String::new(),
            amount: 1_000_000,
            point: point(100, 0xaa),
            tx_id: hex_repeat("02", 32),
            tx_idx: 0,
        },
        CRDTCommand::BlockFinished(point(100, 0xaa)),
    ]);
    apply_all(&mut db, cmds);

    assert!(db.cursor.rows.contains(&CursorRow { slot: 100, hash: hex_repeat("aa", 32) }));
    assert_eq!(db.voting_power.len(), 2);
    let a = &db.voting_power[0];
    assert_eq!(a.spending, hex_repeat("a1", 28));
    assert_eq!(a.staking, hex_repeat("a2", 28));
    assert_eq!(a.amount, 1_000_000);
    assert_eq!(a.spent_slot, Some(100));
    let b_row = &db.voting_power[1];
    assert_eq!(b_row.spending, hex_repeat("b1", 28));
    assert_eq!(b_row.amount, 1_000_000);
    assert_eq!(b_row.created_slot, 100);
    assert_eq!(b_row.spent_slot, None);
    assert_eq!(db.cursor.last_point(), Some(point(100, 0xaa)));
}

#[test]
fn rollback_erases_forward_effects() {
    let reducers = vec![by_address("lovelace", None, ErrorAction::Skip)];
    let mut db = Database::new();
    for (slot, tag) in [(100u64, 0x10u8), (101, 0x11), (102, 0x12)] {
        let b = block(slot, tag, vec![Tx { hash: vec![tag; 32], inputs: vec![], outputs: vec![lovelace_out(shelley(tag, tag), 5)] }]);
        apply_all(&mut db, run(&reducers, b, BlockContext::new()));
    }
    assert_eq!(db.voting_power.len(), 3);
    db.apply(CRDTCommand::RollBack(point(100, 0x10))).unwrap();
    assert_eq!(db.voting_power.len(), 1);
    assert_eq!(db.voting_power[0].created_slot, 100);
    assert_eq!(db.cursor.rows, vec![CursorRow { slot: 100, hash: hex_repeat("10", 32) }]);
    assert_eq!(db.cursor.last_point(), Some(point(100, 0x10)));
}

#[test]
fn missing_utxo_under_skip_policy() {
    let reducers = vec![by_address("lovelace", None, ErrorAction::Skip)];
    let b = block(7, 0x07, vec![Tx {
        hash: vec![0x03; 32],
        inputs: vec![OutputRef { tx_hash: vec![0x09; 32], index: 4 }],
        outputs: vec![lovelace_out(shelley(0xc1, 0xc2), 42)],
    }]);
    let cmds = run(&reducers, b, BlockContext::new());
    assert_eq!(cmds.len(), 3);
    assert!(matches!(&cmds[1], CRDTCommand::VotingPowerCreated { amount: 42, .. }));
}

#[test]
fn missing_utxo_under_fail_policy() {
    let reducers = vec![by_address("lovelace", None, ErrorAction::Fail)];
    let b = block(7, 0x07, vec![Tx {
        hash: vec![0x03; 32],
        inputs: vec![OutputRef { tx_hash: vec![0x09; 32], index: 4 }],
        outputs: vec![lovelace_out(shelley(0xc1, 0xc2), 42)],
    }]);
    let r = process_payload(&reducers, &EnrichedBlockPayload::RollForward(b, BlockContext::new()));
    assert_eq!(r, Err(ReducerError::MissingUtxo));
}

#[test]
fn policy_filter() {
    let policy_hex = format!("deadbeef{}", "00".repeat(24));
    let mut policy_id = vec![0xde, 0xad, 0xbe, 0xef];
    policy_id.extend(vec![0u8; 24]);
    let reducers = vec![by_address("gov", Some(&policy_hex), ErrorAction::Skip)];
    let out = TxOutput {
        address: Address::Shelley(shelley(0xd1, 0xd2)),
        address_text: String::from("addr_plain"),
        lovelace: 5,
        assets: vec![
            NativeAsset { policy: policy_id, name: b"vote".to_vec(), amount: 7 },
            NativeAsset { policy: vec![0x99; 28], name: b"other".to_vec(), amount: 9 },
        ],
        datum: None,
    };
    let cmds = run(&reducers, block(9, 0x09, vec![Tx { hash: vec![0x04; 32], inputs: vec![], outputs: vec![out] }]), BlockContext::new());
    assert_eq!(cmds.len(), 3);
    match &cmds[1] {
        CRDTCommand::VotingPowerCreated { amount, policy, .. } => {
            assert_eq!(*amount, 7);
            assert_eq!(policy, "gov");
        },
        other => panic!("unexpected command {:?}", other),
    }
}

fn key_constr(byte: u8) -> PlutusData {
    PlutusData::Constr(0, vec![PlutusData::BoundedBytes(vec![byte; 28])])
}

fn staking_datum(address_field: PlutusData) -> PlutusData {
    PlutusData::Constr(0, vec![PlutusData::Constr(0, vec![]), address_field])
}

fn good_address_field() -> PlutusData {
    PlutusData::Constr(0, vec![
        key_constr(0x11),
        PlutusData::Constr(0, vec![PlutusData::Constr(0, vec![key_constr(0x22)])]),
    ])
}

fn script_out(datum: Option<DatumOption>) -> TxOutput {
    TxOutput {
        address: Address::Shelley(ShelleyAddress { payment: vec![0x33; 28], delegation: vec![] }),
        address_text: String::from("addr1script"),
        lovelace: 3_000_000,
        assets: vec![],
        datum,
    }
}

fn genius() -> Reducer {
    balance_by_genius_stake::Config {
        key_prefix: String::from("genius"),
        policy_id_hex: None,
        script_address: String::from("addr1script"),
    }
    .plugin(&policy(ErrorAction::Skip))
}

#[test]
fn script_datum_happy_path() {
    let out = script_out(Some(DatumOption::Data(staking_datum(good_address_field()))));
    let cmds = run(&vec![genius()], block(11, 0x0b, vec![Tx { hash: vec![0x05; 32], inputs: vec![], outputs: vec![out] }]), BlockContext::new());
    assert_eq!(cmds.len(), 3);
    match &cmds[1] {
        CRDTCommand::VotingPowerCreated { owner, amount, policy, .. } => {
            assert_eq!(*owner, shelley(0x11, 0x22));
            assert_eq!(*amount, 3_000_000);
            assert_eq!(policy, "genius");
        },
        other => panic!("unexpected command {:?}", other),
    }
}

#[test]
fn script_datum_malformed() {
    let out = script_out(Some(DatumOption::Data(staking_datum(PlutusData::BoundedBytes(vec![1, 2, 3])))));
    let cmds = run(&vec![genius()], block(11, 0x0b, vec![Tx { hash: vec![0x05; 32], inputs: vec![], outputs: vec![out] }]), BlockContext::new());
    assert_eq!(cmds.len(), 2);
}

#[test]
fn script_datum_by_witness_hash() {
    let cbor = vec![0xd8, 0x79, 0x9f, 0x01, 0xff];
    let hash = Hasher::<256>::hash(&cbor).to_vec();
    let out = script_out(Some(DatumOption::Hash(hash)));
    let mut b = block(12, 0x0c, vec![Tx { hash: vec![0x06; 32], inputs: vec![], outputs: vec![out] }]);
    b.witness_datums = vec![WitnessDatum { cbor, data: staking_datum(good_address_field()) }];
    let cmds = run(&vec![genius()], b, BlockContext::new());
    assert_eq!(cmds.len(), 3);
    assert!(matches!(&cmds[1], CRDTCommand::VotingPowerCreated { owner, .. } if *owner == shelley(0x11, 0x22)));
}

#[test]
fn script_datum_unknown_hash_skipped() {
    let out = script_out(Some(DatumOption::Hash(vec![0x44; 32])));
    let mut b = block(12, 0x0c, vec![Tx { hash: vec![0x06; 32], inputs: vec![], outputs: vec![out] }]);
    b.witness_datums = vec![WitnessDatum { cbor: vec![0x44; 32], data: staking_datum(good_address_field()) }];
    let cmds = run(&vec![genius()], b, BlockContext::new());
    assert_eq!(cmds.len(), 2);
}

#[test]
fn script_datum_other_address_skipped() {
    let mut out = script_out(Some(DatumOption::Data(staking_datum(good_address_field()))));
    out.address_text = String::from("addr1elsewhere");
    let cmds = run(&vec![genius()], block(13, 0x0d, vec![Tx { hash: vec![0x07; 32], inputs: vec![], outputs: vec![out] }]), BlockContext::new());
    assert_eq!(cmds.len(), 2);
}

#[test]
fn script_datum_spend_emitted() {
    let mut ctx = BlockContext::new();
    ctx.import_ref_output(
        OutputRef { tx_hash: vec![0x05; 32], index: 0 },
        script_out(Some(DatumOption::Data(staking_datum(good_address_field())))),
    );
    let b = block(14, 0x0e, vec![Tx {
        hash: vec![0x08; 32],
        inputs: vec![OutputRef { tx_hash: vec![0x05; 32], index: 0 }],
        outputs: vec![],
    }]);
    let cmds = run(&vec![genius()], b, ctx);
    assert_eq!(cmds[1], CRDTCommand::VotingPowerSpent { tx_id: hex_repeat("05", 32), tx_idx: 0, point: point(14, 0x0e) });
}

#[test]
fn witness_selected_by_given_hashes() {
    let ws = vec![
        WitnessDatum { cbor: vec![1], data: PlutusData::BoundedBytes(vec![0xa0]) },
        WitnessDatum { cbor: vec![2], data: PlutusData::BoundedBytes(vec![0xb0]) },
        WitnessDatum { cbor: vec![3], data: PlutusData::BoundedBytes(vec![0xc0]) },
    ];
    let hashes = vec![vec![9, 9], vec![7, 7], vec![9, 9]];
    assert_eq!(balance_by_genius_stake::select_witness(&ws, &hashes, &vec![7, 7]), Some(&PlutusData::BoundedBytes(vec![0xb0])));
    assert_eq!(balance_by_genius_stake::select_witness(&ws, &hashes, &vec![9, 9]), Some(&PlutusData::BoundedBytes(vec![0xc0])));
    assert_eq!(balance_by_genius_stake::select_witness(&ws, &hashes, &vec![5]), None);
    assert_eq!(balance_by_genius_stake::select_witness(&ws, &hashes[..1].to_vec(), &vec![9, 9]), Some(&PlutusData::BoundedBytes(vec![0xa0])));
}

#[test]
fn datum_address_decoding() {
    assert_eq!(balance_by_genius_stake::datum_to_address(&staking_datum(good_address_field())), Some(shelley(0x11, 0x22)));
    let short_key = PlutusData::Constr(0, vec![
        PlutusData::Constr(0, vec![PlutusData::BoundedBytes(vec![0x11; 27])]),
        PlutusData::Constr(0, vec![PlutusData::Constr(0, vec![key_constr(0x22)])]),
    ]);
    assert_eq!(balance_by_genius_stake::datum_to_address(&staking_datum(short_key)), None);
    let no_stake = PlutusData::Constr(0, vec![key_constr(0x11), PlutusData::Constr(1, vec![])]);
    assert_eq!(balance_by_genius_stake::datum_to_address(&staking_datum(no_stake)), None);
}
