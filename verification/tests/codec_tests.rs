use engine::codec::encode_wal_entry;
use engine::codec::parse_wal_entry;
use engine::wal::WalEntry;

fn entry(seq: u64, symbol: &str, side: &str, price: i64, qty: i64, cid: &str) -> WalEntry {
    WalEntry {
        seq,
        symbol: symbol.to_string(),
        side: side.to_string(),
        price,
        qty,
        client_order_id: cid.to_string(),
    }
}

fn assert_round_trip(e: &WalEntry) {
    let line = encode_wal_entry(e);
    let back = parse_wal_entry(&line).expect("an encoded entry must parse");
    assert_eq!(back.seq, e.seq);
    assert_eq!(back.symbol, e.symbol);
    assert_eq!(back.side, e.side);
    assert_eq!(back.price, e.price);
    assert_eq!(back.qty, e.qty);
    assert_eq!(back.client_order_id, e.client_order_id);
}

#[test]
fn encodes_the_exact_persisted_line() {
    let e = entry(1, "X", "BUY", 101, 4, "c1");
    assert_eq!(
        encode_wal_entry(&e),
        "{\"seq\":1,\"symbol\":\"X\",\"side\":\"BUY\",\"price\":101,\"qty\":4,\"client_order_id\":\"c1\"}"
    );
}

#[test]
fn encodes_escapes_as_standard_json() {
    let e = entry(7, "A\"B", "SELL", 0, 1, "a\\b\nc\td\u{1}e");
    assert_eq!(
        encode_wal_entry(&e),
        "{\"seq\":7,\"symbol\":\"A\\\"B\",\"side\":\"SELL\",\"price\":0,\"qty\":1,\"client_order_id\":\"a\\\\b\\nc\\td\\u0001e\"}"
    );
}

#[test]
fn round_trips_plain_and_awkward_entries() {
    assert_round_trip(&entry(1, "AAPL", "BUY", 100, 5, "client-1"));
    assert_round_trip(&entry(u64::MAX, "X", "SELL", i64::MAX, i64::MIN, ""));
    assert_round_trip(&entry(0, "s p a c e", "BUY", 0, -1, "quote\" slash\\ nl\n cr\r tab\t"));
    assert_round_trip(&entry(42, "Ünïcodé", "BUY", 7, 7, "控制\u{7}字符"));
    assert_round_trip(&entry(9, "X", "HOLD", 1, 1, "an unknown side tag still round-trips"));
}

#[test]
fn parser_rejects_malformed_lines() {
    assert!(parse_wal_entry("").is_none());
    assert!(parse_wal_entry("{}").is_none());
    assert!(parse_wal_entry("not json").is_none());
    // wrong field order
    assert!(parse_wal_entry(
        "{\"symbol\":\"X\",\"seq\":1,\"side\":\"BUY\",\"price\":1,\"qty\":1,\"client_order_id\":\"c\"}"
    )
    .is_none());
    // leading zero
    assert!(parse_wal_entry(
        "{\"seq\":01,\"symbol\":\"X\",\"side\":\"BUY\",\"price\":1,\"qty\":1,\"client_order_id\":\"c\"}"
    )
    .is_none());
    // sequence number out of range
    assert!(parse_wal_entry(
        "{\"seq\":18446744073709551616,\"symbol\":\"X\",\"side\":\"BUY\",\"price\":1,\"qty\":1,\"client_order_id\":\"c\"}"
    )
    .is_none());
    // unterminated string
    assert!(parse_wal_entry(
        "{\"seq\":1,\"symbol\":\"X,\"side\":\"BUY\",\"price\":1,\"qty\":1,\"client_order_id\":\"c\"}"
    )
    .is_none());
    // trailing garbage
    assert!(parse_wal_entry(
        "{\"seq\":1,\"symbol\":\"X\",\"side\":\"BUY\",\"price\":1,\"qty\":1,\"client_order_id\":\"c\"} "
    )
    .is_none());
    // unknown escape
    assert!(parse_wal_entry(
        "{\"seq\":1,\"symbol\":\"\\x\",\"side\":\"BUY\",\"price\":1,\"qty\":1,\"client_order_id\":\"c\"}"
    )
    .is_none());
}

#[test]
fn parses_numbers_at_their_bounds() {
    let line = format!(
        "{{\"seq\":{},\"symbol\":\"X\",\"side\":\"BUY\",\"price\":{},\"qty\":{},\"client_order_id\":\"c\"}}",
        u64::MAX,
        i64::MIN,
        i64::MAX
    );
    let e = parse_wal_entry(&line).expect("bounds must parse");
    assert_eq!(e.seq, u64::MAX);
    assert_eq!(e.price, i64::MIN);
    assert_eq!(e.qty, i64::MAX);
    // one past the signed bound is rejected
    let over = "{\"seq\":1,\"symbol\":\"X\",\"side\":\"BUY\",\"price\":-9223372036854775809,\"qty\":1,\"client_order_id\":\"c\"}";
    assert!(parse_wal_entry(over).is_none());
}

#[test]
fn encoded_lines_are_json_a_standard_parser_agrees_with() {
    let e = entry(3, "A\"B", "SELL", -7, 9, "x\\y\nz");
    let line = encode_wal_entry(&e);
    let v: serde_json::Value = serde_json::from_str(&line).expect("must be valid JSON");
    assert_eq!(v["seq"], 3);
    assert_eq!(v["symbol"], "A\"B");
    assert_eq!(v["side"], "SELL");
    assert_eq!(v["price"], -7);
    assert_eq!(v["qty"], 9);
    assert_eq!(v["client_order_id"], "x\\y\nz");
}
