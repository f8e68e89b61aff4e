use scrolls::enrich::{build_context, consumed_refs, EnrichError};
use scrolls::model::{
    Address, Block, BlockContext, CRDTCommand, ContextError, EnrichedBlockPayload, ErrorAction, OutputRef,
    Point, RuntimePolicy, ShelleyAddress, Tx, TxOutput,
};
use scrolls::pipeline::{after_bootstrap, after_work, Action, ErrorClass, RetryPolicy, TwoPhaseInputPort};
use scrolls::reducers::process_payload;
use scrolls::storage::postgres::{self, ApplyError, Database, WorkError};
use scrolls::storage::{self, skip, Sink};

fn out(amount: u64) -> TxOutput {
    TxOutput {
        address: Address::Shelley(ShelleyAddress { payment: vec![1; 28], delegation: vec![] }),
        address_text: String::from("addr_plain"),
        lovelace: amount,
        assets: vec![],
        datum: None,
    }
}

fn oref(b: u8, i: u32) -> OutputRef {
    OutputRef { tx_hash: vec![b; 32], index: i }
}

fn pol(missing: ErrorAction) -> RuntimePolicy {
    RuntimePolicy { missing_utxo: missing, decode_error: ErrorAction::Fail }
}

#[test]
fn backoff_doubles_up_to_the_cap() {
    let p = RetryPolicy { max_retries: 20, backoff_unit: 1000, backoff_factor: 2, max_backoff: 60_000 };
    assert_eq!(p.backoff(0), 1000);
    assert_eq!(p.backoff(3), 8000);
    assert_eq!(p.backoff(5), 32_000);
    assert_eq!(p.backoff(6), 60_000);
    assert_eq!(p.backoff(40), 60_000);
    let z = RetryPolicy { max_retries: 3, backoff_unit: 500, backoff_factor: 0, max_backoff: 100 };
    assert_eq!(z.backoff(0), 100);
    assert_eq!(z.backoff(2), 0);
}

#[test]
fn bootstrap_retries_then_stops() {
    let p = RetryPolicy { max_retries: 2, backoff_unit: 1000, backoff_factor: 2, max_backoff: 60_000 };
    assert_eq!(after_bootstrap(&p, 0, true), Action::Work);
    assert_eq!(after_bootstrap(&p, 0, false), Action::RetryBootstrap(1000));
    assert_eq!(after_bootstrap(&p, 1, false), Action::RetryBootstrap(2000));
    assert_eq!(after_bootstrap(&p, 2, false), Action::Stop);
    assert_eq!(after_work(None), Action::Work);
    assert_eq!(after_work(Some(ErrorClass::Restart)), Action::Restart);
    assert_eq!(after_work(Some(ErrorClass::Panic)), Action::Stop);
}

#[test]
fn port_delivers_in_order_and_redelivers() {
    let mut port = TwoPhaseInputPort::new();
    assert_eq!(port.recv_or_idle(), None);
    assert!(port.offer());
    assert!(port.offer());
    assert_eq!(port.recv_or_idle(), Some(0));
    port.restart();
    assert_eq!(port.recv_or_idle(), Some(0));
    port.commit();
    assert_eq!(port.recv_or_idle(), Some(1));
    port.commit();
    assert_eq!(port.recv_or_idle(), None);
}

#[test]
fn consumed_refs_lists_every_input() {
    let b = Block {
        slot: 1,
        hash: vec![0; 32],
        txs: vec![
            Tx { hash: vec![1; 32], inputs: vec![oref(7, 0), oref(7, 1)], outputs: vec![] },
            Tx { hash: vec![2; 32], inputs: vec![oref(8, 3)], outputs: vec![] },
        ],
        witness_datums: vec![],
    };
    assert_eq!(consumed_refs(&b), vec![oref(7, 0), oref(7, 1), oref(8, 3)]);
}

#[test]
fn context_skips_or_fails_on_misses() {
    let resolved = || vec![(oref(7, 0), Some(out(5))), (oref(7, 1), None), (oref(8, 3), Some(out(9)))];
    let ctx = build_context(resolved(), &pol(ErrorAction::Skip)).unwrap();
    assert_eq!(ctx.find_utxo(&oref(7, 0)), Ok(&out(5)));
    assert_eq!(ctx.find_utxo(&oref(8, 3)), Ok(&out(9)));
    assert_eq!(ctx.find_utxo(&oref(7, 1)), Err(ContextError::MissingUtxo));
    assert_eq!(build_context(resolved(), &pol(ErrorAction::Fail)), Err(EnrichError::MissingUtxo));
}

#[test]
fn context_later_entry_wins() {
    let mut ctx = BlockContext::new();
    ctx.import_ref_output(oref(3, 0), out(1));
    ctx.import_ref_output(oref(3, 0), out(2));
    assert_eq!(ctx.find_utxo(&oref(3, 0)), Ok(&out(2)));
}

#[test]
fn rollback_payload_passes_through() {
    let cmds = process_payload(&vec![], &EnrichedBlockPayload::RollBack(Point::Specific(9, vec![9; 32]))).unwrap();
    assert_eq!(cmds, vec![CRDTCommand::RollBack(Point::Specific(9, vec![9; 32]))]);
}

#[test]
fn store_refuses_broken_invariants() {
    let owner = ShelleyAddress { payment: vec![1; 28], delegation: vec![] };
    let created = |amount: u64, point: Point| CRDTCommand::VotingPowerCreated {
        owner: owner.clone(),
        policy: String::from("p"),
        token: String::new(),
        amount,
        point,
        tx_id: String::from("00"),
        tx_idx: 0,
    };
    let mut db = Database::new();
    assert_eq!(db.apply(created(1, Point::Origin)), Err(ApplyError::CreatedAtOrigin));
    assert_eq!(db.apply(created(1, Point::Specific(4, vec![4; 32]))), Err(ApplyError::MissingCursor));
    db.apply(CRDTCommand::BlockStarting(Point::Specific(4, vec![4; 32]))).unwrap();
    assert_eq!(db.apply(created(u64::MAX, Point::Specific(4, vec![4; 32]))), Err(ApplyError::AmountOutOfRange));
    assert!(db.voting_power.is_empty());
    db.apply(created(1, Point::Specific(4, vec![4; 32]))).unwrap();
    assert_eq!(db.voting_power.len(), 1);
}

#[test]
fn voting_power_change_is_recorded_as_a_signed_row() {
    let mut db = Database::new();
    db.apply(CRDTCommand::BlockStarting(Point::Specific(4, vec![4; 32]))).unwrap();
    let change = CRDTCommand::voting_power_change(
        ShelleyAddress { payment: vec![0xab; 28], delegation: vec![0xcd; 28] },
        String::from("tag"),
        -25,
        Point::Specific(4, vec![4; 32]),
    );
    db.apply(change).unwrap();
    assert_eq!(db.voting_power[0].amount, -25);
    assert_eq!(db.voting_power[0].spending, "ab".repeat(28));
    assert_eq!(db.voting_power[0].staking, "cd".repeat(28));
}

#[test]
fn sink_worker_refuses_gaps() {
    let mut w = postgres::Config { connection_params: String::new() }.bootstrapper();
    assert_eq!(w.work(1, CRDTCommand::BlockFinished(Point::Origin)), Err(WorkError::Gap));
    w.work(0, CRDTCommand::BlockFinished(Point::Origin)).unwrap();
    assert_eq!(w.applied, 1);
    assert_eq!(w.ops_count, 1);
}

#[test]
fn cursor_reads_latest_row() {
    let mut db = Database::new();
    db.apply(CRDTCommand::BlockStarting(Point::Specific(30, vec![0x1e; 32]))).unwrap();
    db.apply(CRDTCommand::BlockStarting(Point::Specific(10, vec![0x0a; 32]))).unwrap();
    assert_eq!(db.cursor.last_point(), Some(Point::Specific(30, vec![0x1e; 32])));
    let bad = vec![postgres::CursorRow { slot: 3, hash: String::from("zz") }];
    assert_eq!(postgres::Cursor::rows_to_point(bad), None);
    let upper = vec![postgres::CursorRow { slot: 3, hash: String::from("AB01") }];
    assert_eq!(postgres::Cursor::rows_to_point(upper), Some(Point::Specific(3, vec![0xab, 0x01])));
}

#[test]
fn skip_sink_tracks_finished_blocks() {
    let sink = storage::Config::Skip(skip::Config {}).plugin();
    let mut w = match sink {
        Sink::Skip(w) => w,
        Sink::Postgres(_) => panic!("expected the skip sink"),
    };
    w.work(CRDTCommand::BlockStarting(Point::Specific(2, vec![2; 32])));
    assert_eq!(storage::Cursor::Skip(w.build_cursor()).last_point(), None);
    w.work(CRDTCommand::BlockFinished(Point::Specific(2, vec![2; 32])));
    assert_eq!(storage::Cursor::Skip(w.build_cursor()).last_point(), Some(Point::Specific(2, vec![2; 32])));
    assert_eq!(w.ops_count, 2);
}
