use engine::book::Level;
use engine::book::Order;
use engine::book::OrderBook;
use engine::book::Side;

fn o(seq: u64, side: Side, price: i64, qty: i64) -> Order {
    Order {
        seq,
        side,
        price,
        qty,
        client_order_id: format!("c{}", seq),
    }
}

fn level_at(levels: &[Level], price: i64) -> &Level {
    levels.iter().find(|l| l.price == price).unwrap()
}

#[test]
fn resting_order_produces_no_fills_and_sits_in_book() {
    let mut book = OrderBook::new();

    let fills = book.add(o(1, Side::Buy, 100, 5));
    assert!(fills.is_empty());

    let (bbp, bbq, bap, baq) = book.top_of_book();
    assert_eq!((bbp, bbq, bap, baq), (100, 5, 0, 0));

    // depth at level exists
    assert_eq!(level_at(&book.bids, 100).queue.len(), 1);
    assert_eq!(level_at(&book.bids, 100).queue[0].remaining_qty, 5);
}

#[test]
fn buy_crosses_best_ask_and_partially_fills() {
    let mut book = OrderBook::new();

    // Resting asks
    assert!(book.add(o(1, Side::Sell, 101, 4)).is_empty());
    assert!(book.add(o(2, Side::Sell, 102, 2)).is_empty());

    // Taker buy sweeps 101 fully and 102 partially
    let fills = book.add(o(3, Side::Buy, 102, 5));
    assert_eq!(fills.len(), 2);

    assert_eq!(fills[0].maker_seq, 1);
    assert_eq!(fills[0].taker_seq, 3);
    assert_eq!(fills[0].price, 101);
    assert_eq!(fills[0].qty, 4);

    assert_eq!(fills[1].maker_seq, 2);
    assert_eq!(fills[1].taker_seq, 3);
    assert_eq!(fills[1].price, 102);
    assert_eq!(fills[1].qty, 1);

    // Remaining ask at 102 should be qty=1
    let q = &level_at(&book.asks, 102).queue;
    assert_eq!(q.len(), 1);
    assert_eq!(q[0].seq, 2);
    assert_eq!(q[0].remaining_qty, 1);

    // No bids should rest (taker fully filled)
    assert!(book.bids.is_empty());

    let (bbp, bbq, bap, baq) = book.top_of_book();
    assert_eq!((bbp, bbq, bap, baq), (0, 0, 102, 1));
}

#[test]
fn sell_crosses_best_bid_and_partially_fills() {
    let mut book = OrderBook::new();

    // Resting bids
    assert!(book.add(o(1, Side::Buy, 100, 3)).is_empty());
    assert!(book.add(o(2, Side::Buy, 99, 4)).is_empty());

    // Taker sell hits 100 fully and 99 partially
    let fills = book.add(o(3, Side::Sell, 99, 5));
    assert_eq!(fills.len(), 2);

    assert_eq!(fills[0].maker_seq, 1);
    assert_eq!(fills[0].taker_seq, 3);
    assert_eq!(fills[0].price, 100);
    assert_eq!(fills[0].qty, 3);

    assert_eq!(fills[1].maker_seq, 2);
    assert_eq!(fills[1].taker_seq, 3);
    assert_eq!(fills[1].price, 99);
    assert_eq!(fills[1].qty, 2);

    // Remaining bid at 99 should be qty=2 (same maker seq=2)
    let q = &level_at(&book.bids, 99).queue;
    assert_eq!(q.len(), 1);
    assert_eq!(q[0].seq, 2);
    assert_eq!(q[0].remaining_qty, 2);

    // No asks should rest (taker fully filled)
    assert!(book.asks.is_empty());

    let (bbp, bbq, bap, baq) = book.top_of_book();
    assert_eq!((bbp, bbq, bap, baq), (99, 2, 0, 0));
}

#[test]
fn fifo_within_same_price_level() {
    let mut book = OrderBook::new();

    // Two asks at same price, different seq; FIFO says seq=1 fills before seq=2
    assert!(book.add(o(1, Side::Sell, 101, 2)).is_empty());
    assert!(book.add(o(2, Side::Sell, 101, 2)).is_empty());

    let fills = book.add(o(3, Side::Buy, 101, 3));
    assert_eq!(fills.len(), 2);

    // First fill should be against seq=1 for qty 2
    assert_eq!(fills[0].maker_seq, 1);
    assert_eq!(fills[0].price, 101);
    assert_eq!(fills[0].qty, 2);

    // Second fill against seq=2 for qty 1
    assert_eq!(fills[1].maker_seq, 2);
    assert_eq!(fills[1].price, 101);
    assert_eq!(fills[1].qty, 1);

    // Remaining ask should be maker seq=2 with qty=1
    let q = &level_at(&book.asks, 101).queue;
    assert_eq!(q.len(), 1);
    assert_eq!(q[0].seq, 2);
    assert_eq!(q[0].remaining_qty, 1);
}

#[test]
fn leftover_rests_if_taker_not_fully_filled() {
    let mut book = OrderBook::new();

    // Only 2 available at 101
    assert!(book.add(o(1, Side::Sell, 101, 2)).is_empty());

    // Buy wants 5 at 101 -> fills 2 and rests 3 as bid at 101
    let fills = book.add(o(2, Side::Buy, 101, 5));
    assert_eq!(fills.len(), 1);
    assert_eq!(fills[0].maker_seq, 1);
    assert_eq!(fills[0].taker_seq, 2);
    assert_eq!(fills[0].price, 101);
    assert_eq!(fills[0].qty, 2);

    // asks empty, bids has remaining 3 at 101 with taker seq=2 resting
    assert!(book.asks.is_empty());
    let qb = &level_at(&book.bids, 101).queue;
    assert_eq!(qb.len(), 1);
    assert_eq!(qb[0].seq, 2);
    assert_eq!(qb[0].remaining_qty, 3);

    let (bbp, bbq, bap, baq) = book.top_of_book();
    assert_eq!((bbp, bbq, bap, baq), (101, 3, 0, 0));
}

#[test]
fn invalid_orders_are_rejected_silently() {
    let mut book = OrderBook::new();
    assert!(book.add(o(1, Side::Buy, 100, 0)).is_empty());
    assert!(book.add(o(2, Side::Buy, 100, -3)).is_empty());
    assert!(book.add(o(3, Side::Sell, -1, 5)).is_empty());
    assert!(book.bids.is_empty());
    assert!(book.asks.is_empty());
}

#[test]
fn book_never_crossed_at_rest() {
    let mut book = OrderBook::new();
    assert!(book.add(o(1, Side::Buy, 100, 5)).is_empty());
    assert!(book.add(o(2, Side::Sell, 101, 7)).is_empty());
    let (bbp, _, bap, _) = book.top_of_book();
    assert!(bbp < bap);
    assert_eq!((bbp, bap), (100, 101));

    // a crossing sell consumes the bid instead of resting below the ask
    let fills = book.add(o(3, Side::Sell, 99, 9));
    assert_eq!(fills.len(), 1);
    assert_eq!(fills[0].price, 100);
    let (bbp2, bbq2, bap2, baq2) = book.top_of_book();
    assert_eq!((bbp2, bbq2), (0, 0));
    // the sell's remainder rests at its own limit, still not crossed
    assert_eq!((bap2, baq2), (99, 4));
}

#[test]
fn conservation_of_quantity_per_submit() {
    let mut book = OrderBook::new();
    assert!(book.add(o(1, Side::Sell, 101, 4)).is_empty());
    assert!(book.add(o(2, Side::Sell, 102, 2)).is_empty());

    // taker of 5: fills 4+1, nothing rests
    let fills = book.add(o(3, Side::Buy, 102, 5));
    let filled: i64 = fills.iter().map(|f| f.qty).sum();
    assert_eq!(filled, 5);
    assert!(book.bids.is_empty());

    // taker of 9 against 1 remaining: fills 1, rests 8
    let fills2 = book.add(o(4, Side::Buy, 102, 9));
    let filled2: i64 = fills2.iter().map(|f| f.qty).sum();
    assert_eq!(filled2, 1);
    assert_eq!(level_at(&book.bids, 102).queue[0].remaining_qty, 8);
    assert_eq!(filled2 + 8, 9);
}

#[test]
fn depth_lists_best_first_aggregated_levels() {
    let mut book = OrderBook::new();
    assert!(book.add(o(1, Side::Buy, 100, 5)).is_empty());
    assert!(book.add(o(2, Side::Buy, 99, 4)).is_empty());
    assert!(book.add(o(3, Side::Buy, 100, 2)).is_empty());
    assert!(book.add(o(4, Side::Sell, 103, 1)).is_empty());
    assert!(book.add(o(5, Side::Sell, 105, 6)).is_empty());

    let (bids, asks) = book.depth(10);
    assert_eq!(bids.len(), 2);
    assert_eq!((bids[0].price, bids[0].qty), (100, 7));
    assert_eq!((bids[1].price, bids[1].qty), (99, 4));
    assert_eq!(asks.len(), 2);
    assert_eq!((asks[0].price, asks[0].qty), (103, 1));
    assert_eq!((asks[1].price, asks[1].qty), (105, 6));

    let (bids1, asks1) = book.depth(1);
    assert_eq!(bids1.len(), 1);
    assert_eq!((bids1[0].price, bids1[0].qty), (100, 7));
    assert_eq!(asks1.len(), 1);
    assert_eq!((asks1[0].price, asks1[0].qty), (103, 1));
}
