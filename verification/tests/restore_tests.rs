use engine::book::Fill;
use engine::book::Side;
use engine::codec::encode_wal_entry;
use engine::engine::EngineState;
use engine::wal::snapshot_of;
use engine::book::Order;
use engine::wal::RestoreError;
use engine::wal::Snapshot;
use engine::wal::SnapshotBook;
use engine::wal::Wal;
use engine::wal::WalEntry;

fn submit_logged(
    st: &mut EngineState,
    log: &mut Vec<String>,
    symbol: &str,
    side: Side,
    price: i64,
    qty: i64,
    cid: &str,
) -> (u64, Vec<Fill>) {
    let sym = symbol.to_string();
    let c = cid.to_string();
    let entry = st
        .prepare_submit(&sym, side, price, qty, &c)
        .expect("request should be valid");
    log.push(encode_wal_entry(&entry));
    let seq = entry.seq;
    let fills = st.commit_submit(&entry);
    (seq, fills)
}

fn run_sweep_scenario(st: &mut EngineState, log: &mut Vec<String>) {
    submit_logged(st, log, "X", Side::Sell, 101, 4, "c1");
    submit_logged(st, log, "X", Side::Sell, 102, 2, "c2");
    submit_logged(st, log, "X", Side::Buy, 102, 5, "c3");
}

#[test]
fn wal_paths_derive_the_snapshot_location() {
    let w = Wal::new("data/wal.jsonl".to_string());
    assert_eq!(w.wal_path(), "data/wal.jsonl");
    assert_eq!(w.snapshot_path(), "data/snapshot.json");

    let bare = Wal::new("wal.jsonl".to_string());
    assert_eq!(bare.snapshot_path(), "snapshot.json");

    let rooted = Wal::new("/var/lib/mx/wal.jsonl".to_string());
    assert_eq!(rooted.snapshot_path(), "/var/lib/mx/snapshot.json");
}

#[test]
fn clean_shutdown_snapshot_restores_books_and_counter() {
    let mut st = EngineState::new();
    let mut log: Vec<String> = Vec::new();
    run_sweep_scenario(&mut st, &mut log);

    // clean shutdown: snapshot written, WAL truncated
    let snap = snapshot_of(&st);
    assert_eq!(snap.seq, 3);

    let mut restored = EngineState::new();
    let w = Wal::new("data/wal.jsonl".to_string());
    let stats = w
        .replay_into_with_stats(&mut restored, Some(&snap), &Vec::new())
        .expect("restore should succeed");
    assert!(stats.snapshot_present);
    assert_eq!(stats.snapshot_seq, 3);
    assert_eq!(stats.snapshot_books, 1);
    assert_eq!(stats.snapshot_orders, 1);
    assert_eq!(stats.wal_replayed, 0);
    assert_eq!(stats.wal_after_seq, 3);

    let top = restored.get_top_of_book(&"X".to_string());
    assert_eq!(top, (0, 0, 102, 1));

    // the next submit continues gap-free
    let sym = "X".to_string();
    let cid = "c4".to_string();
    let entry = restored
        .prepare_submit(&sym, Side::Buy, 90, 1, &cid)
        .expect("valid");
    assert_eq!(entry.seq, 4);
}

#[test]
fn crash_replay_from_wal_matches_clean_restore() {
    let mut st = EngineState::new();
    let mut log: Vec<String> = Vec::new();
    run_sweep_scenario(&mut st, &mut log);
    assert_eq!(log.len(), 3);

    // killed without a snapshot: restart reads only the WAL
    let mut replayed = EngineState::new();
    let w = Wal::new("data/wal.jsonl".to_string());
    let stats = w
        .replay_into_with_stats(&mut replayed, None, &log)
        .expect("replay should succeed");
    assert!(!stats.snapshot_present);
    assert_eq!(stats.wal_replayed, 3);
    assert_eq!(stats.wal_after_seq, 0);

    // identical books and counter to the run that never crashed
    let sym = "X".to_string();
    assert_eq!(replayed.get_top_of_book(&sym), st.get_top_of_book(&sym));
    assert_eq!(replayed.seq, st.seq);
    let (b1, a1) = replayed.get_book_depth(&sym, 0);
    let (b2, a2) = st.get_book_depth(&sym, 0);
    assert_eq!(b1, b2);
    assert_eq!(a1, a2);

    let cid = "c4".to_string();
    let entry = replayed
        .prepare_submit(&sym, Side::Buy, 90, 1, &cid)
        .expect("valid");
    assert_eq!(entry.seq, 4);
}

#[test]
fn replay_skips_entries_the_snapshot_covers() {
    let mut st = EngineState::new();
    let mut log: Vec<String> = Vec::new();
    run_sweep_scenario(&mut st, &mut log);
    let snap = snapshot_of(&st);

    // snapshot written but the WAL survived: pre-snapshot lines are skipped
    let mut restored = EngineState::new();
    let w = Wal::new("data/wal.jsonl".to_string());
    let stats = w
        .replay_into_with_stats(&mut restored, Some(&snap), &log)
        .expect("restore should succeed");
    assert_eq!(stats.wal_replayed, 0);
    assert_eq!(restored.get_top_of_book(&"X".to_string()), (0, 0, 102, 1));
    assert_eq!(restored.seq, 3);
}

#[test]
fn blank_wal_lines_are_ignored() {
    let mut st = EngineState::new();
    let mut log: Vec<String> = Vec::new();
    submit_logged(&mut st, &mut log, "X", Side::Buy, 100, 5, "c1");
    log.push("".to_string());
    log.push("   \t".to_string());

    let mut replayed = EngineState::new();
    let w = Wal::new("wal.jsonl".to_string());
    let stats = w
        .replay_into_with_stats(&mut replayed, None, &log)
        .expect("replay should succeed");
    assert_eq!(stats.wal_replayed, 1);
    assert_eq!(replayed.get_top_of_book(&"X".to_string()), (100, 5, 0, 0));
}

#[test]
fn malformed_wal_line_is_fatal() {
    let log = vec!["not json at all".to_string()];
    let mut st = EngineState::new();
    let w = Wal::new("wal.jsonl".to_string());
    let err = w.replay_into_with_stats(&mut st, None, &log).unwrap_err();
    assert_eq!(err, RestoreError::MalformedWalLine);
}

#[test]
fn unknown_side_tag_is_fatal() {
    let bogus = WalEntry {
        seq: 1,
        symbol: "X".to_string(),
        side: "HOLD".to_string(),
        price: 100,
        qty: 5,
        client_order_id: "c1".to_string(),
    };
    let log = vec![encode_wal_entry(&bogus)];
    let mut st = EngineState::new();
    let w = Wal::new("wal.jsonl".to_string());
    let err = w.replay_into_with_stats(&mut st, None, &log).unwrap_err();
    assert_eq!(err, RestoreError::InvalidSide);
}

#[test]
fn empty_symbol_in_wal_is_fatal() {
    let bogus = WalEntry {
        seq: 1,
        symbol: "".to_string(),
        side: "BUY".to_string(),
        price: 100,
        qty: 5,
        client_order_id: "c1".to_string(),
    };
    let log = vec![encode_wal_entry(&bogus)];
    let mut st = EngineState::new();
    let w = Wal::new("wal.jsonl".to_string());
    let err = w.replay_into_with_stats(&mut st, None, &log).unwrap_err();
    assert_eq!(err, RestoreError::EmptySymbol);
}

#[test]
fn sequence_regression_in_wal_is_fatal() {
    let e2 = WalEntry {
        seq: 2,
        symbol: "X".to_string(),
        side: "BUY".to_string(),
        price: 100,
        qty: 5,
        client_order_id: "c2".to_string(),
    };
    let e1 = WalEntry {
        seq: 1,
        symbol: "X".to_string(),
        side: "BUY".to_string(),
        price: 100,
        qty: 5,
        client_order_id: "c1".to_string(),
    };
    let log = vec![encode_wal_entry(&e2), encode_wal_entry(&e1)];
    let mut st = EngineState::new();
    let w = Wal::new("wal.jsonl".to_string());
    let err = w.replay_into_with_stats(&mut st, None, &log).unwrap_err();
    assert_eq!(err, RestoreError::NonMonotonicSeq);
}

#[test]
fn snapshot_flattens_levels_in_ascending_price_fifo_order() {
    let mut st = EngineState::new();
    let mut log: Vec<String> = Vec::new();
    submit_logged(&mut st, &mut log, "X", Side::Buy, 100, 5, "c1");
    submit_logged(&mut st, &mut log, "X", Side::Buy, 99, 4, "c2");
    submit_logged(&mut st, &mut log, "X", Side::Buy, 100, 2, "c3");
    let snap = snapshot_of(&st);
    assert_eq!(snap.books.len(), 1);
    assert_eq!(snap.books[0].symbol, "X");
    let bids = &snap.books[0].bids;
    assert_eq!(bids.len(), 3);
    // ascending price; FIFO (by sequence number) within the level
    assert_eq!((bids[0].price, bids[0].seq, bids[0].qty), (99, 2, 4));
    assert_eq!((bids[1].price, bids[1].seq, bids[1].qty), (100, 1, 5));
    assert_eq!((bids[2].price, bids[2].seq, bids[2].qty), (100, 3, 2));
    assert!(snap.books[0].asks.is_empty());
}

#[test]
fn corrupt_snapshot_is_fatal() {
    let flat = |seq: u64, side: Side, price: i64, qty: i64| Order {
        seq,
        side,
        price,
        qty,
        client_order_id: format!("c{}", seq),
    };
    // a crossed book: a bid at 105 above an ask at 101
    let crossed = Snapshot {
        seq: 2,
        books: vec![SnapshotBook {
            symbol: "X".to_string(),
            bids: vec![flat(1, Side::Buy, 105, 3)],
            asks: vec![flat(2, Side::Sell, 101, 2)],
        }],
    };
    let mut st = EngineState::new();
    let w = Wal::new("wal.jsonl".to_string());
    let err = w
        .replay_into_with_stats(&mut st, Some(&crossed), &Vec::new())
        .unwrap_err();
    assert_eq!(err, RestoreError::MalformedSnapshot);

    // a non-positive remaining quantity is equally fatal
    let bad_qty = Snapshot {
        seq: 1,
        books: vec![SnapshotBook {
            symbol: "X".to_string(),
            bids: vec![flat(1, Side::Buy, 100, 0)],
            asks: Vec::new(),
        }],
    };
    let mut st2 = EngineState::new();
    let err2 = w
        .replay_into_with_stats(&mut st2, Some(&bad_qty), &Vec::new())
        .unwrap_err();
    assert_eq!(err2, RestoreError::MalformedSnapshot);
}
