use engine::book::Fill;
use engine::book::Side;
use engine::engine::EngineError;
use engine::engine::EngineState;
use engine::engine::normalize_symbol;
use engine::wal::WalEntry;

fn submit(
    st: &mut EngineState,
    symbol: &str,
    side: Side,
    price: i64,
    qty: i64,
    cid: &str,
) -> (u64, Vec<Fill>) {
    let sym = symbol.to_string();
    let c = cid.to_string();
    let entry: WalEntry = st
        .prepare_submit(&sym, side, price, qty, &c)
        .expect("request should be valid");
    let seq = entry.seq;
    let fills = st.commit_submit(&entry);
    (seq, fills)
}

#[test]
fn pure_rest_acknowledges_and_shows_top_of_book() {
    let mut st = EngineState::new();
    let (seq, fills) = submit(&mut st, "AAPL", Side::Buy, 100, 5, "a1");
    assert_eq!(seq, 1);
    assert!(fills.is_empty());
    let top = st.get_top_of_book(&"AAPL".to_string());
    assert_eq!(top, (100, 5, 0, 0));
}

#[test]
fn sweep_and_partial_fill_across_levels() {
    let mut st = EngineState::new();
    let (s1, f1) = submit(&mut st, "X", Side::Sell, 101, 4, "c1");
    let (s2, f2) = submit(&mut st, "X", Side::Sell, 102, 2, "c2");
    let (s3, f3) = submit(&mut st, "X", Side::Buy, 102, 5, "c3");
    assert_eq!((s1, s2, s3), (1, 2, 3));
    assert!(f1.is_empty());
    assert!(f2.is_empty());
    assert_eq!(f3.len(), 2);
    assert_eq!(
        (f3[0].maker_seq, f3[0].taker_seq, f3[0].price, f3[0].qty),
        (1, 3, 101, 4)
    );
    assert_eq!(
        (f3[1].maker_seq, f3[1].taker_seq, f3[1].price, f3[1].qty),
        (2, 3, 102, 1)
    );
    let top = st.get_top_of_book(&"X".to_string());
    assert_eq!(top, (0, 0, 102, 1));
}

#[test]
fn fifo_makers_at_one_level() {
    let mut st = EngineState::new();
    submit(&mut st, "Y", Side::Sell, 101, 2, "c1");
    submit(&mut st, "Y", Side::Sell, 101, 2, "c2");
    let (_, fills) = submit(&mut st, "Y", Side::Buy, 101, 3, "c3");
    assert_eq!(fills.len(), 2);
    assert_eq!((fills[0].maker_seq, fills[0].taker_seq, fills[0].price, fills[0].qty), (1, 3, 101, 2));
    assert_eq!((fills[1].maker_seq, fills[1].taker_seq, fills[1].price, fills[1].qty), (2, 3, 101, 1));
    let top = st.get_top_of_book(&"Y".to_string());
    assert_eq!(top, (0, 0, 101, 1));
}

#[test]
fn taker_remainder_rests_after_partial_fill() {
    let mut st = EngineState::new();
    let (s1, _) = submit(&mut st, "Z", Side::Sell, 101, 2, "c1");
    let (s2, fills) = submit(&mut st, "Z", Side::Buy, 101, 5, "c2");
    assert_eq!((s1, s2), (1, 2));
    assert_eq!(fills.len(), 1);
    assert_eq!((fills[0].maker_seq, fills[0].taker_seq, fills[0].price, fills[0].qty), (1, 2, 101, 2));
    let top = st.get_top_of_book(&"Z".to_string());
    assert_eq!(top, (101, 3, 0, 0));
}

#[test]
fn failed_append_releases_the_sequence_number() {
    let mut st = EngineState::new();
    let sym = "X".to_string();
    let cid = "c1".to_string();
    // the append fails: the entry is never committed and the counter rolls back
    let entry = st
        .prepare_submit(&sym, Side::Buy, 100, 5, &cid)
        .expect("valid");
    assert_eq!(entry.seq, 1);
    st.abort_submit();
    assert_eq!(st.seq, 0);
    // the client sees the request rejected as unavailable
    let unavailable = EngineError::WalUnavailable;
    assert_ne!(unavailable, EngineError::EmptySymbol);
    // the next accepted submit still gets seq 1: gap-free
    let (seq, fills) = submit(&mut st, "X", Side::Buy, 100, 5, "c1");
    assert_eq!(seq, 1);
    assert!(fills.is_empty());
}

#[test]
fn validation_rejects_before_any_state_change() {
    let mut st = EngineState::new();
    let empty = "".to_string();
    let sym = "X".to_string();
    let cid = "c".to_string();
    assert_eq!(
        st.prepare_submit(&empty, Side::Buy, 100, 5, &cid).unwrap_err(),
        EngineError::EmptySymbol
    );
    assert_eq!(
        st.prepare_submit(&sym, Side::Buy, 100, 0, &cid).unwrap_err(),
        EngineError::NonPositiveQty
    );
    assert_eq!(
        st.prepare_submit(&sym, Side::Buy, 100, -2, &cid).unwrap_err(),
        EngineError::NonPositiveQty
    );
    assert_eq!(
        st.prepare_submit(&sym, Side::Buy, -1, 5, &cid).unwrap_err(),
        EngineError::NegativePrice
    );
    assert_eq!(st.seq, 0);
    assert!(st.books.is_empty());
}

#[test]
fn symbol_normalization_trims_and_rejects_empty() {
    assert_eq!(normalize_symbol("  AAPL \t").unwrap(), "AAPL");
    assert_eq!(normalize_symbol("X").unwrap(), "X");
    assert_eq!(normalize_symbol("   ").unwrap_err(), EngineError::EmptySymbol);
    assert_eq!(normalize_symbol("").unwrap_err(), EngineError::EmptySymbol);
}

#[test]
fn recent_trades_cursor_and_limits() {
    let mut st = EngineState::new();
    submit(&mut st, "X", Side::Sell, 101, 4, "c1");
    submit(&mut st, "X", Side::Sell, 102, 2, "c2");
    submit(&mut st, "X", Side::Buy, 102, 5, "c3");

    let sym = "X".to_string();
    // default limit: both trades, cursor at the last
    let (trades, last) = st.get_recent_trades(&sym, 0, 0);
    assert_eq!(trades.len(), 2);
    assert_eq!((trades[0].trade_id, trades[0].price, trades[0].qty), (1, 101, 4));
    assert_eq!((trades[1].trade_id, trades[1].price, trades[1].qty), (2, 102, 1));
    assert_eq!(trades[0].maker_seq, 1);
    assert_eq!(trades[0].taker_seq, 3);
    assert_eq!(trades[0].taker_side, Side::Buy);
    assert_eq!(last, 2);

    // cursor past the first trade
    let (trades2, last2) = st.get_recent_trades(&sym, 1, 50);
    assert_eq!(trades2.len(), 1);
    assert_eq!(trades2[0].trade_id, 2);
    assert_eq!(last2, 2);

    // nothing new: the cursor comes back unchanged
    let (trades3, last3) = st.get_recent_trades(&sym, 2, 50);
    assert!(trades3.is_empty());
    assert_eq!(last3, 2);

    // limit of one
    let (trades4, last4) = st.get_recent_trades(&sym, 0, 1);
    assert_eq!(trades4.len(), 1);
    assert_eq!(last4, 1);

    // unknown symbol
    let (trades5, last5) = st.get_recent_trades(&"NONE".to_string(), 7, 50);
    assert!(trades5.is_empty());
    assert_eq!(last5, 7);
}

#[test]
fn depth_defaults_and_caps() {
    let mut st = EngineState::new();
    submit(&mut st, "X", Side::Buy, 100, 5, "c1");
    submit(&mut st, "X", Side::Buy, 99, 4, "c2");
    submit(&mut st, "X", Side::Sell, 103, 1, "c3");

    let sym = "X".to_string();
    let (bids, asks) = st.get_book_depth(&sym, 0);
    assert_eq!(bids.len(), 2);
    assert_eq!((bids[0].price, bids[0].qty), (100, 5));
    assert_eq!((bids[1].price, bids[1].qty), (99, 4));
    assert_eq!(asks.len(), 1);
    assert_eq!((asks[0].price, asks[0].qty), (103, 1));

    let (bids1, _) = st.get_book_depth(&sym, 1);
    assert_eq!(bids1.len(), 1);

    let (bids_neg, _) = st.get_book_depth(&sym, -3);
    assert_eq!(bids_neg.len(), 2);

    let (bids_none, asks_none) = st.get_book_depth(&"NONE".to_string(), 5);
    assert!(bids_none.is_empty());
    assert!(asks_none.is_empty());
}

#[test]
fn trade_tape_caps_at_capacity_and_evicts_oldest() {
    let mut st = EngineState::new();
    // one big resting bid, then sells that each produce one trade
    submit(&mut st, "X", Side::Buy, 100, 20000, "maker");
    for _ in 0..10001 {
        let (_, fills) = submit(&mut st, "X", Side::Sell, 100, 1, "t");
        assert_eq!(fills.len(), 1);
    }
    assert_eq!(st.trades.len(), 1);
    assert_eq!(st.trades[0].trades.len(), 10000);
    // the oldest trade (id 1) was evicted: the earliest visible is id 2
    let (trades, _) = st.get_recent_trades(&"X".to_string(), 0, 1);
    assert_eq!(trades[0].trade_id, 2);
}
