use scrolls::model::{
    Address, Block, BlockContext, CRDTCommand, ErrorAction, EnrichedBlockPayload, OutputRef, Point,
    RuntimePolicy, ShelleyAddress, Tx, TxOutput,
};
use scrolls::pipeline::TwoPhaseInputPort;
use scrolls::reducers::{balance_by_address, process_payload, Reducer};
use scrolls::storage::postgres::{Database, VotingPowerRow};

fn skip_policy() -> RuntimePolicy {
    RuntimePolicy { missing_utxo: ErrorAction::Skip, decode_error: ErrorAction::Skip }
}

fn addr(p: u8) -> ShelleyAddress {
    ShelleyAddress { payment: vec![p; 28], delegation: vec![] }
}

fn out(a: Address, amount: u64) -> TxOutput {
    TxOutput { address: a, address_text: String::from("addr_plain"), lovelace: amount, assets: vec![], datum: None }
}

fn reducer(prefix: &str) -> Reducer {
    balance_by_address::Config { key_prefix: Some(prefix.to_string()), policy_id_hex: None }.plugin(&skip_policy())
}

fn run(reducers: &Vec<Reducer>, b: Block, ctx: BlockContext) -> Vec<CRDTCommand> {
    process_payload(reducers, &EnrichedBlockPayload::RollForward(b, ctx)).unwrap()
}

fn apply_all(db: &mut Database, cmds: Vec<CRDTCommand>) {
    for c in cmds {
        db.apply(c).unwrap();
    }
}

/// Slot 100: A receives 10. Slot 101: A sends 4 to B and 6 back to itself.
fn two_blocks() -> Vec<(Block, BlockContext)> {
    let b1 = Block {
        slot: 100,
        hash: vec![0x64; 32],
        txs: vec![Tx { hash: vec![0x01; 32], inputs: vec![], outputs: vec![out(Address::Shelley(addr(0xaa)), 10)] }],
        witness_datums: vec![],
    };
    let mut ctx = BlockContext::new();
    ctx.import_ref_output(OutputRef { tx_hash: vec![0x01; 32], index: 0 }, out(Address::Shelley(addr(0xaa)), 10));
    let b2 = Block {
        slot: 101,
        hash: vec![0x65; 32],
        txs: vec![Tx {
            hash: vec![0x02; 32],
            inputs: vec![OutputRef { tx_hash: vec![0x01; 32], index: 0 }],
            outputs: vec![out(Address::Shelley(addr(0xbb)), 4), out(Address::Shelley(addr(0xaa)), 6)],
        }],
        witness_datums: vec![],
    };
    vec![(b1, BlockContext::new()), (b2, ctx)]
}

fn balance_at(db: &Database, spending: &str, s: u64) -> i64 {
    let rows: Vec<&VotingPowerRow> = db.voting_power.iter().filter(|r| r.spending == spending).collect();
    let total: i64 = rows.iter().filter(|r| r.created_slot <= s).map(|r| r.amount).sum();
    let spent: i64 = rows.iter().filter(|r| matches!(r.spent_slot, Some(t) if t <= s)).map(|r| r.amount).sum();
    total - spent
}

#[test]
fn block_stream_is_framed() {
    let reducers = vec![reducer("a"), reducer("b")];
    for (b, ctx) in two_blocks() {
        let p = Point::Specific(b.slot, b.hash.clone());
        let cmds = run(&reducers, b, ctx);
        assert_eq!(cmds.first(), Some(&CRDTCommand::BlockStarting(p.clone())));
        assert_eq!(cmds.last(), Some(&CRDTCommand::BlockFinished(p)));
        for c in &cmds[1..cmds.len() - 1] {
            assert!(matches!(c, CRDTCommand::VotingPowerCreated { .. } | CRDTCommand::VotingPowerSpent { .. }));
        }
    }
}

#[test]
fn last_point_after_forward_sequence() {
    let reducers = vec![reducer("a")];
    let mut db = Database::new();
    for (b, ctx) in two_blocks() {
        apply_all(&mut db, run(&reducers, b, ctx));
    }
    assert_eq!(db.cursor.last_point(), Some(Point::Specific(101, vec![0x65; 32])));
}

#[test]
fn rollback_restores_earlier_state() {
    let reducers = vec![reducer("a")];
    let mut db = Database::new();
    let mut blocks = two_blocks().into_iter();
    let (b1, c1) = blocks.next().unwrap();
    apply_all(&mut db, run(&reducers, b1, c1));
    let at_first = db.clone();
    let (b2, c2) = blocks.next().unwrap();
    apply_all(&mut db, run(&reducers, b2, c2));
    assert_ne!(db, at_first);
    db.apply(CRDTCommand::RollBack(Point::Specific(100, vec![0x64; 32]))).unwrap();
    assert_eq!(db, at_first);
}

#[test]
fn balance_by_spending_key() {
    let reducers = vec![reducer("a")];
    let mut db = Database::new();
    for (b, ctx) in two_blocks() {
        apply_all(&mut db, run(&reducers, b, ctx));
    }
    let a = "aa".repeat(28);
    let b = "bb".repeat(28);
    assert_eq!(balance_at(&db, &a, 100), 10);
    assert_eq!(balance_at(&db, &a, 101), 6);
    assert_eq!(balance_at(&db, &b, 100), 0);
    assert_eq!(balance_at(&db, &b, 101), 4);
}

fn sorted_rows(db: &Database) -> Vec<(String, String, i64, u64, Option<u64>)> {
    let mut rows: Vec<_> = db
        .voting_power
        .iter()
        .map(|r| (r.policy.clone(), r.spending.clone(), r.amount, r.created_slot, r.spent_slot))
        .collect();
    rows.sort();
    rows
}

#[test]
fn reducer_order_does_not_matter() {
    let mut first = Database::new();
    let mut second = Database::new();
    for (b, ctx) in two_blocks() {
        apply_all(&mut first, run(&vec![reducer("a"), reducer("b")], b, ctx));
    }
    for (b, ctx) in two_blocks() {
        apply_all(&mut second, run(&vec![reducer("b"), reducer("a")], b, ctx));
    }
    assert_eq!(first.cursor, second.cursor);
    assert_eq!(sorted_rows(&first), sorted_rows(&second));
}

#[test]
fn replay_after_crash_changes_nothing() {
    let reducers = vec![reducer("a")];
    let mut stream: Vec<CRDTCommand> = Vec::new();
    for (b, ctx) in two_blocks() {
        stream.extend(run(&reducers, b, ctx));
    }
    let run_stream = |crash_at: Option<u64>| {
        let mut port = TwoPhaseInputPort::new();
        for _ in 0..stream.len() {
            assert!(port.offer());
        }
        let mut sink = scrolls::storage::postgres::Config { connection_params: String::new() }.bootstrapper();
        while let Some(n) = port.recv_or_idle() {
            sink.work(n, stream[n as usize].clone()).unwrap();
            if crash_at == Some(n) {
                port.restart();
                let again = port.recv_or_idle();
                assert_eq!(again, Some(n));
                sink.work(n, stream[n as usize].clone()).unwrap();
            }
            port.commit();
        }
        sink
    };
    let clean = run_stream(None);
    for n in 0..stream.len() as u64 {
        let crashed = run_stream(Some(n));
        assert_eq!(crashed.database, clean.database);
        assert_eq!(crashed.applied, clean.applied);
    }
}

#[test]
fn block_applied_twice_duplicates_rows_only() {
    let reducers = vec![reducer("a")];
    let (b, ctx) = two_blocks().into_iter().next().unwrap();
    let cmds = run(&reducers, b, ctx);
    let mut once = Database::new();
    apply_all(&mut once, cmds.clone());
    let mut twice = once.clone();
    apply_all(&mut twice, cmds);
    assert_eq!(twice.cursor, once.cursor);
    assert_eq!(twice.voting_power.len(), 2);
    assert_eq!(twice.voting_power[0], once.voting_power[0]);
    assert_eq!(twice.voting_power[1], once.voting_power[0]);
}

#[test]
fn origin_start_writes_no_cursor_row() {
    let mut db = Database::new();
    db.apply(CRDTCommand::BlockStarting(Point::Origin)).unwrap();
    assert!(db.cursor.rows.is_empty());
    assert_eq!(db.cursor.last_point(), None);
}

#[test]
fn zero_amounts_are_not_emitted() {
    let b = Block {
        slot: 5,
        hash: vec![0x05; 32],
        txs: vec![Tx { hash: vec![0x03; 32], inputs: vec![], outputs: vec![out(Address::Shelley(addr(0xcc)), 0)] }],
        witness_datums: vec![],
    };
    let cmds = run(&vec![reducer("a")], b, BlockContext::new());
    assert_eq!(cmds.len(), 2);
}

#[test]
fn non_shelley_addresses_are_skipped() {
    let mut ctx = BlockContext::new();
    ctx.import_ref_output(OutputRef { tx_hash: vec![0x0f; 32], index: 1 }, out(Address::Other, 50));
    let b = Block {
        slot: 6,
        hash: vec![0x06; 32],
        txs: vec![Tx {
            hash: vec![0x04; 32],
            inputs: vec![OutputRef { tx_hash: vec![0x0f; 32], index: 1 }],
            outputs: vec![out(Address::Other, 50)],
        }],
        witness_datums: vec![],
    };
    let cmds = run(&vec![reducer("a")], b, ctx);
    assert_eq!(cmds.len(), 2);
}
