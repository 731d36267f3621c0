//! Per-symbol price-level FIFO order book.
//!
//! A book keeps two sides, each a vector of price levels sorted by strictly
//! ascending price. The best bid is the last level of `bids`; the best ask is
//! the first level of `asks`. Each level holds its resting orders in arrival
//! order (ascending sequence number), and every resting order has a positive
//! remaining quantity. A well-formed book is never crossed at rest: the best
//! bid price is strictly below the best ask price whenever both sides are
//! populated.

use vstd::prelude::*;

verus! {

/// The side of an order: bid or offer.
#[derive(Clone, Copy, PartialEq, Eq, Structural, Debug)]
pub enum Side {
    Buy,
    Sell,
}

/// An incoming order, as accepted by the engine. `qty` is the requested
/// quantity and must be positive; `price` must be non-negative. Prices and
/// quantities are integer ticks and lots.
#[derive(Debug)]
pub struct Order {
    pub seq: u64,
    pub side: Side,
    pub price: i64,
    pub qty: i64,
    pub client_order_id: String,
}

/// An order resting in the book. `remaining_qty` is positive for as long as
/// the order is present; an order is removed the instant it would reach zero.
#[derive(Debug)]
pub struct RestingOrder {
    pub seq: u64,
    pub side: Side,
    pub price: i64,
    pub remaining_qty: i64,
    pub client_order_id: String,
}

/// One maker/taker match emitted while an incoming order crosses the book.
/// `price` is always the maker's resting price.
#[derive(Clone, Copy, PartialEq, Eq, Structural, Debug)]
pub struct Fill {
    pub maker_seq: u64,
    pub taker_seq: u64,
    pub price: i64,
    pub qty: i64,
}

/// One price level: the price and the FIFO queue of orders resting at it.
#[derive(Debug)]
pub struct Level {
    pub price: i64,
    pub queue: Vec<RestingOrder>,
}

/// A per-symbol book. `bids` and `asks` are sorted by ascending price, so the
/// best bid is `bids.last()` and the best ask is `asks[0]`.
#[derive(Debug)]
pub struct OrderBook {
    pub bids: Vec<Level>,
    pub asks: Vec<Level>,
}

/// Mathematical model of an order: the same fields with unbounded integers
/// and the client order id as a character sequence.
pub ghost struct OrderV {
    pub seq: int,
    pub side: Side,
    pub price: int,
    pub qty: int,
    pub cid: Seq<char>,
}

/// Mathematical model of a resting order.
pub ghost struct RestV {
    pub seq: int,
    pub side: Side,
    pub price: int,
    pub qty: int,
    pub cid: Seq<char>,
}

/// Mathematical model of a fill.
pub ghost struct FillV {
    pub maker_seq: int,
    pub taker_seq: int,
    pub price: int,
    pub qty: int,
}

/// Mathematical model of a price level.
pub ghost struct LevelV {
    pub price: int,
    pub queue: Seq<RestV>,
}

/// Mathematical model of a book.
pub ghost struct BookV {
    pub bids: Seq<LevelV>,
    pub asks: Seq<LevelV>,
}

impl View for Order {
    type V = OrderV;

    open spec fn view(&self) -> OrderV {
        OrderV {
            seq: self.seq as int,
            side: self.side,
            price: self.price as int,
            qty: self.qty as int,
            cid: self.client_order_id@,
        }
    }
}

impl View for RestingOrder {
    type V = RestV;

    open spec fn view(&self) -> RestV {
        RestV {
            seq: self.seq as int,
            side: self.side,
            price: self.price as int,
            qty: self.remaining_qty as int,
            cid: self.client_order_id@,
        }
    }
}

impl View for Fill {
    type V = FillV;

    open spec fn view(&self) -> FillV {
        FillV {
            maker_seq: self.maker_seq as int,
            taker_seq: self.taker_seq as int,
            price: self.price as int,
            qty: self.qty as int,
        }
    }
}

impl View for Level {
    type V = LevelV;

    open spec fn view(&self) -> LevelV {
        LevelV { price: self.price as int, queue: self.queue@.map_values(|r: RestingOrder| r@) }
    }
}

impl View for OrderBook {
    type V = BookV;

    open spec fn view(&self) -> BookV {
        BookV {
            bids: self.bids@.map_values(|l: Level| l@),
            asks: self.asks@.map_values(|l: Level| l@),
        }
    }
}

impl Clone for Order {
    /// Clones preserve the order exactly.
    fn clone(&self) -> (r: Self)
        ensures
            r == self,
    {
        Order {
            seq: self.seq,
            side: self.side,
            price: self.price,
            qty: self.qty,
            client_order_id: self.client_order_id.clone(),
        }
    }
}

impl Clone for RestingOrder {
    /// Clones preserve the resting order exactly.
    fn clone(&self) -> (r: Self)
        ensures
            r == self,
    {
        RestingOrder {
            seq: self.seq,
            side: self.side,
            price: self.price,
            remaining_qty: self.remaining_qty,
            client_order_id: self.client_order_id.clone(),
        }
    }
}

/// A level is well formed when it is non-empty, every order in it rests at
/// the level's price on the given side with positive remaining quantity, and
/// the queue is in strictly ascending sequence order (arrival order).
pub open spec fn level_wf(l: LevelV, side: Side) -> bool {
    &&& l.queue.len() > 0
    &&& forall|i: int|
        0 <= i < l.queue.len() ==> {
            &&& (#[trigger] l.queue[i]).price == l.price
            &&& l.queue[i].qty > 0
            &&& l.queue[i].side == side
        }
    &&& forall|i: int, j: int|
        #![trigger l.queue[i].seq, l.queue[j].seq]
        0 <= i < j < l.queue.len() ==> l.queue[i].seq < l.queue[j].seq
}

/// A side is well formed when its prices are non-negative, strictly
/// ascending, and every level is well formed; empty levels never linger.
pub open spec fn side_wf(ls: Seq<LevelV>, side: Side) -> bool {
    &&& forall|i: int|
        0 <= i < ls.len() ==> level_wf(#[trigger] ls[i], side) && ls[i].price >= 0
    &&& forall|i: int, j: int|
        #![trigger ls[i].price, ls[j].price]
        0 <= i < j < ls.len() ==> ls[i].price < ls[j].price
}

/// The best bid price of a side sorted ascending, i.e. the last level.
pub open spec fn best_bid_price(bids: Seq<LevelV>) -> int
    recommends
        bids.len() > 0,
{
    bids.last().price
}

/// The best ask price of a side sorted ascending, i.e. the first level.
pub open spec fn best_ask_price(asks: Seq<LevelV>) -> int
    recommends
        asks.len() > 0,
{
    asks[0].price
}

/// A book is well formed when both sides are well formed and the book is not
/// crossed at rest: best bid strictly below best ask whenever both sides are
/// populated.
pub open spec fn book_wf(b: BookV) -> bool {
    &&& side_wf(b.bids, Side::Buy)
    &&& side_wf(b.asks, Side::Sell)
    &&& b.bids.len() > 0 && b.asks.len() > 0 ==> best_bid_price(b.bids) < best_ask_price(b.asks)
}

impl OrderBook {
    /// Whether this book satisfies the book invariant.
    pub open spec fn wf(&self) -> bool {
        book_wf(self@)
    }

    /// Creates an empty book.
    pub fn new() -> (r: Self)
        ensures
            r@.bids == Seq::<LevelV>::empty(),
            r@.asks == Seq::<LevelV>::empty(),
            r.wf(),
    {
        let r = OrderBook { bids: Vec::new(), asks: Vec::new() };
        proof {
            assert(r@.bids =~= Seq::<LevelV>::empty());
            assert(r@.asks =~= Seq::<LevelV>::empty());
        }
        r
    }
}

/// One aggregated depth entry: a price and the total resting quantity at it.
#[derive(Clone, Copy, PartialEq, Eq, Structural, Debug)]
pub struct PriceLevel {
    pub price: i64,
    pub qty: i64,
}

/// The view of a queue of resting orders.
pub open spec fn qv(q: Seq<RestingOrder>) -> Seq<RestV> {
    q.map_values(|r: RestingOrder| r@)
}

/// The total remaining quantity of a queue.
pub open spec fn queue_qty_sum(q: Seq<RestV>) -> int
    decreases q.len(),
{
    if q.len() == 0 {
        0
    } else {
        q[0].qty + queue_qty_sum(q.drop_first())
    }
}

/// Clips an aggregated quantity at the largest representable value. Reported
/// aggregates saturate rather than overflow; with realistic books the sum is
/// far below the bound and is reported exactly.
pub open spec fn clip_qty(x: int) -> int {
    if x > i64::MAX {
        i64::MAX as int
    } else {
        x
    }
}

proof fn lemma_queue_sum_push(q: Seq<RestV>, x: RestV)
    ensures
        queue_qty_sum(q.push(x)) == queue_qty_sum(q) + x.qty,
    decreases q.len(),
{
    let p = q.push(x);
    if q.len() == 0 {
        assert(p.drop_first() =~= Seq::<RestV>::empty());
        assert(p[0] == x);
        assert(queue_qty_sum(Seq::<RestV>::empty()) == 0);
    } else {
        assert(p.drop_first() =~= q.drop_first().push(x));
        lemma_queue_sum_push(q.drop_first(), x);
        assert(p[0] == q[0]);
    }
}

/// Sums the remaining quantities of a queue, saturating at the largest
/// representable value.
fn saturating_qty_sum(q: &Vec<RestingOrder>) -> (s: i64)
    requires
        forall|k: int| 0 <= k < q@.len() ==> (#[trigger] q@[k]).remaining_qty >= 0,
    ensures
        s as int == clip_qty(queue_qty_sum(qv(q@))),
        s >= 0,
{
    let mut s: i64 = 0;
    let mut i: usize = 0;
    while i < q.len()
        invariant
            0 <= i <= q@.len(),
            forall|k: int| 0 <= k < q@.len() ==> (#[trigger] q@[k]).remaining_qty >= 0,
            s as int == clip_qty(queue_qty_sum(qv(q@).take(i as int))),
            s >= 0,
        decreases q@.len() - i,
    {
        let x = q[i].remaining_qty;
        let ghost pre = queue_qty_sum(qv(q@).take(i as int));
        if s > i64::MAX - x {
            s = i64::MAX;
        } else {
            s = s + x;
        }
        proof {
            assert(qv(q@).take(i + 1) =~= qv(q@).take(i as int).push(qv(q@)[i as int]));
            lemma_queue_sum_push(qv(q@).take(i as int), qv(q@)[i as int]);
            assert(qv(q@)[i as int] == q@[i as int]@);
        }
        i = i + 1;
    }
    proof {
        assert(qv(q@).take(q@.len() as int) =~= qv(q@));
    }
    s
}

/// The top of book: best bid price and its aggregated quantity, best ask
/// price and its aggregated quantity, with zeros for an empty side.
/// Aggregated quantities are clipped at the largest representable value.
pub open spec fn top_of_book_spec(b: BookV) -> (int, int, int, int) {
    let bp = if b.bids.len() == 0 {
        0
    } else {
        best_bid_price(b.bids)
    };
    let bq = if b.bids.len() == 0 {
        0
    } else {
        clip_qty(queue_qty_sum(b.bids.last().queue))
    };
    let ap = if b.asks.len() == 0 {
        0
    } else {
        best_ask_price(b.asks)
    };
    let aq = if b.asks.len() == 0 {
        0
    } else {
        clip_qty(queue_qty_sum(b.asks[0].queue))
    };
    (bp, bq, ap, aq)
}

impl OrderBook {
    /// The derived top of book: `(best_bid_price, best_bid_qty,
    /// best_ask_price, best_ask_qty)`, zeros per side when empty.
    pub fn top_of_book(&self) -> (r: (i64, i64, i64, i64))
        requires
            self.wf(),
        ensures
            ({
                let t = top_of_book_spec(self@);
                &&& r.0 as int == t.0
                &&& r.1 as int == t.1
                &&& r.2 as int == t.2
                &&& r.3 as int == t.3
            }),
    {
        let (bbp, bbq) = if self.bids.len() == 0 {
            (0i64, 0i64)
        } else {
            let k = self.bids.len() - 1;
            proof {
                assert(self@.bids.last() == self.bids@[k as int]@);
                assert(level_wf(self@.bids.last(), Side::Buy));
                assert forall|m: int|
                    0 <= m < self.bids@[k as int].queue@.len() implies (#[trigger] self.bids@[
                k as int].queue@[m]).remaining_qty >= 0 by {
                    assert(self@.bids.last().queue[m] == self.bids@[k as int].queue@[m]@);
                }
            }
            let p = self.bids[k].price;
            let s = saturating_qty_sum(&self.bids[k].queue);
            proof {
                assert(qv(self.bids@[k as int].queue@) == self@.bids.last().queue);
            }
            (p, s)
        };
        let (bap, baq) = if self.asks.len() == 0 {
            (0i64, 0i64)
        } else {
            proof {
                assert(self@.asks[0] == self.asks@[0]@);
                assert(level_wf(self@.asks[0], Side::Sell));
                assert forall|m: int|
                    0 <= m < self.asks@[0].queue@.len() implies (#[trigger] self.asks@[0].queue@[
                m]).remaining_qty >= 0 by {
                    assert(self@.asks[0].queue[m] == self.asks@[0].queue@[m]@);
                }
            }
            let p = self.asks[0].price;
            let s = saturating_qty_sum(&self.asks[0].queue);
            proof {
                assert(qv(self.asks@[0].queue@) == self@.asks[0].queue);
            }
            (p, s)
        };
        (bbp, bbq, bap, baq)
    }
}

/// The aggregated view of one level: its price and its clipped total
/// quantity.
pub open spec fn level_entry(l: LevelV) -> (int, int) {
    (l.price, clip_qty(queue_qty_sum(l.queue)))
}

/// Up to `n` best-first aggregated entries of a side given best-first.
pub open spec fn depth_levels(ls: Seq<LevelV>, n: int) -> Seq<(int, int)> {
    ls.take(if n < ls.len() {
        n
    } else {
        ls.len() as int
    }).map_values(|l: LevelV| level_entry(l))
}

/// The depth view of a book: up to `n` best-first entries per side. Bids are
/// stored ascending, so their best-first order is the reverse.
pub open spec fn depth_spec(b: BookV, n: int) -> (Seq<(int, int)>, Seq<(int, int)>) {
    (depth_levels(b.bids.reverse(), n), depth_levels(b.asks, n))
}

impl OrderBook {
    /// The derived depth view: up to `levels` best-first `(price, qty)`
    /// entries per side, each quantity aggregated over the level's queue
    /// (clipped at the largest representable value).
    pub fn depth(&self, levels: usize) -> (r: (Vec<PriceLevel>, Vec<PriceLevel>))
        requires
            self.wf(),
        ensures
            ({
                let d = depth_spec(self@, levels as int);
                &&& r.0@.map_values(|p: PriceLevel| (p.price as int, p.qty as int)) == d.0
                &&& r.1@.map_values(|p: PriceLevel| (p.price as int, p.qty as int)) == d.1
            }),
    {
        let ghost rb = self@.bids.reverse();
        let nb = if levels < self.bids.len() {
            levels
        } else {
            self.bids.len()
        };
        let mut bids_out: Vec<PriceLevel> = Vec::new();
        proof {
            assert(bids_out@.map_values(|p: PriceLevel| (p.price as int, p.qty as int)) =~= rb.take(
                0,
            ).map_values(|l: LevelV| level_entry(l)));
        }
        let mut j: usize = 0;
        while j < nb
            invariant
                0 <= j <= nb,
                nb == if levels < self.bids@.len() {
                    levels as int
                } else {
                    self.bids@.len() as int
                },
                self.wf(),
                rb == self@.bids.reverse(),
                bids_out@.map_values(|p: PriceLevel| (p.price as int, p.qty as int)) == rb.take(
                    j as int,
                ).map_values(|l: LevelV| level_entry(l)),
            decreases nb - j,
        {
            let k = self.bids.len() - 1 - j;
            proof {
                assert(self@.bids[k as int] == self.bids@[k as int]@);
                assert(rb[j as int] == self@.bids[k as int]);
                assert(level_wf(self@.bids[k as int], Side::Buy));
                assert forall|m: int|
                    0 <= m < self.bids@[k as int].queue@.len() implies (#[trigger] self.bids@[
                k as int].queue@[m]).remaining_qty >= 0 by {
                    assert(self@.bids[k as int].queue[m] == self.bids@[k as int].queue@[m]@);
                }
            }
            let ghost pre_map = bids_out@.map_values(|p: PriceLevel| (p.price as int, p.qty as int));
            let p = self.bids[k].price;
            let s = saturating_qty_sum(&self.bids[k].queue);
            bids_out.push(PriceLevel { price: p, qty: s });
            proof {
                assert(qv(self.bids@[k as int].queue@) == self@.bids[k as int].queue);
                assert(rb[j as int] == self@.bids[k as int]);
                assert(p as int == rb[j as int].price);
                assert(s as int == clip_qty(queue_qty_sum(qv(self.bids@[k as int].queue@))));
                assert(rb[j as int].queue == qv(self.bids@[k as int].queue@));
                assert(s as int == clip_qty(queue_qty_sum(rb[j as int].queue)));
                assert((p as int, s as int) == level_entry(rb[j as int]));
                assert(bids_out@.map_values(|p: PriceLevel| (p.price as int, p.qty as int))
                    =~= pre_map.push((p as int, s as int)));
                assert(rb.take(j + 1) =~= rb.take(j as int).push(rb[j as int]));
                assert(rb.take(j as int).push(rb[j as int]).map_values(|l: LevelV| level_entry(l))
                    =~= rb.take(j as int).map_values(|l: LevelV| level_entry(l)).push(
                    level_entry(rb[j as int]),
                ));
            }
            j = j + 1;
        }
        let na = if levels < self.asks.len() {
            levels
        } else {
            self.asks.len()
        };
        let mut asks_out: Vec<PriceLevel> = Vec::new();
        proof {
            assert(asks_out@.map_values(|p: PriceLevel| (p.price as int, p.qty as int))
                =~= self@.asks.take(0).map_values(|l: LevelV| level_entry(l)));
        }
        let mut j: usize = 0;
        while j < na
            invariant
                0 <= j <= na,
                na == if levels < self.asks@.len() {
                    levels as int
                } else {
                    self.asks@.len() as int
                },
                self.wf(),
                asks_out@.map_values(|p: PriceLevel| (p.price as int, p.qty as int))
                    == self@.asks.take(j as int).map_values(|l: LevelV| level_entry(l)),
            decreases na - j,
        {
            proof {
                assert(self@.asks[j as int] == self.asks@[j as int]@);
                assert(level_wf(self@.asks[j as int], Side::Sell));
                assert forall|m: int|
                    0 <= m < self.asks@[j as int].queue@.len() implies (#[trigger] self.asks@[
                j as int].queue@[m]).remaining_qty >= 0 by {
                    assert(self@.asks[j as int].queue[m] == self.asks@[j as int].queue@[m]@);
                }
            }
            let ghost pre_map = asks_out@.map_values(|p: PriceLevel| (p.price as int, p.qty as int));
            let p = self.asks[j].price;
            let s = saturating_qty_sum(&self.asks[j].queue);
            asks_out.push(PriceLevel { price: p, qty: s });
            proof {
                assert(qv(self.asks@[j as int].queue@) == self@.asks[j as int].queue);
                assert(p as int == self@.asks[j as int].price);
                assert(s as int == clip_qty(queue_qty_sum(self@.asks[j as int].queue)));
                assert((p as int, s as int) == level_entry(self@.asks[j as int]));
                assert(asks_out@.map_values(|p: PriceLevel| (p.price as int, p.qty as int))
                    =~= pre_map.push((p as int, s as int)));
                assert(self@.asks.take(j + 1) =~= self@.asks.take(j as int).push(
                    self@.asks[j as int],
                ));
                assert(self@.asks.take(j as int).push(self@.asks[j as int]).map_values(
                    |l: LevelV| level_entry(l),
                ) =~= self@.asks.take(j as int).map_values(|l: LevelV| level_entry(l)).push(
                    level_entry(self@.asks[j as int]),
                ));
            }
            j = j + 1;
        }
        proof {
            assert(rb.take(nb as int) =~= rb.take(
                if (levels as int) < rb.len() {
                    levels as int
                } else {
                    rb.len() as int
                },
            ));
            assert(self@.asks.take(na as int) =~= self@.asks.take(
                if (levels as int) < self@.asks.len() {
                    levels as int
                } else {
                    self@.asks.len() as int
                },
            ));
        }
        (bids_out, asks_out)
    }
}

impl Default for OrderBook {
    /// The default book is empty.
    fn default() -> (r: Self)
        ensures
            r@.bids == Seq::<LevelV>::empty(),
            r@.asks == Seq::<LevelV>::empty(),
            r.wf(),
    {
        OrderBook::new()
    }
}

} // verus!
