//! The write-ahead log's data model: one entry per accepted order, a
//! snapshot of resting book state, and the restore pipeline that rebuilds an
//! engine from a snapshot plus the log's tail.
//!
//! The file I/O itself (append, flush, atomic rename) lives outside the
//! library; everything here is the logic on the values those files carry.

use vstd::prelude::*;

use crate::book::Level;
use crate::book::LevelV;
use crate::book::Order;
use crate::book::OrderV;
use crate::book::RestV;
use crate::book::RestingOrder;
use crate::book::Side;
use crate::matching::rest_into;

verus! {

/// One WAL line: one accepted order. `side` is the string `"BUY"` or
/// `"SELL"` as persisted.
#[derive(Debug)]
pub struct WalEntry {
    pub seq: u64,
    pub symbol: String,
    pub side: String,
    pub price: i64,
    pub qty: i64,
    pub client_order_id: String,
}

/// Mathematical model of a WAL entry.
pub ghost struct WalEntryV {
    pub seq: int,
    pub symbol: Seq<char>,
    pub side: Seq<char>,
    pub price: int,
    pub qty: int,
    pub cid: Seq<char>,
}

impl View for WalEntry {
    type V = WalEntryV;

    open spec fn view(&self) -> WalEntryV {
        WalEntryV {
            seq: self.seq as int,
            symbol: self.symbol@,
            side: self.side@,
            price: self.price as int,
            qty: self.qty as int,
            cid: self.client_order_id@,
        }
    }
}

impl Clone for WalEntry {
    /// Clones preserve the entry exactly.
    fn clone(&self) -> (r: Self)
        ensures
            r == self,
    {
        WalEntry {
            seq: self.seq,
            symbol: self.symbol.clone(),
            side: self.side.clone(),
            price: self.price,
            qty: self.qty,
            client_order_id: self.client_order_id.clone(),
        }
    }
}

/// The persisted side tag of a side.
pub open spec fn side_tag(side: Side) -> Seq<char> {
    if side == Side::Buy {
        "BUY"@
    } else {
        "SELL"@
    }
}

/// A WAL entry an engine would have written: a valid order under a known
/// side tag.
pub open spec fn entry_valid(e: WalEntryV) -> bool {
    &&& e.symbol.len() > 0
    &&& e.qty > 0
    &&& e.price >= 0
    &&& (e.side == side_tag(Side::Buy) || e.side == side_tag(Side::Sell))
    &&& 0 <= e.seq <= u64::MAX
}

/// The side a valid entry names.
pub open spec fn entry_side(e: WalEntryV) -> Side {
    if e.side == side_tag(Side::Buy) {
        Side::Buy
    } else {
        Side::Sell
    }
}

/// The order a valid entry denotes.
pub open spec fn order_of_entry(e: WalEntryV) -> crate::book::OrderV {
    crate::book::OrderV {
        seq: e.seq,
        side: entry_side(e),
        price: e.price,
        qty: e.qty,
        cid: e.cid,
    }
}


/// The flat order record a resting order serializes to: `qty` carries the
/// remaining quantity at snapshot time.
pub open spec fn order_of_rest(r: RestV) -> OrderV {
    OrderV { seq: r.seq, side: r.side, price: r.price, qty: r.qty, cid: r.cid }
}

/// The resting order a flat snapshot record restores to.
pub open spec fn rest_of_order(o: OrderV) -> RestV {
    RestV { seq: o.seq, side: o.side, price: o.price, qty: o.qty, cid: o.cid }
}

/// One level's queue as flat records, front to back.
pub open spec fn queue_orders(q: Seq<RestV>) -> Seq<OrderV> {
    q.map_values(|r: RestV| order_of_rest(r))
}

/// One side flattened for a snapshot: levels in ascending price order, each
/// queue front to back.
pub open spec fn flatten_spec(ls: Seq<LevelV>) -> Seq<OrderV>
    decreases ls.len(),
{
    if ls.len() == 0 {
        Seq::<OrderV>::empty()
    } else {
        queue_orders(ls[0].queue) + flatten_spec(ls.drop_first())
    }
}

/// Flattening one more level appends its queue's records.
proof fn lemma_flatten_snoc(ls: Seq<LevelV>, i: int)
    requires
        0 <= i < ls.len(),
    ensures
        flatten_spec(ls.take(i + 1)) == flatten_spec(ls.take(i)) + queue_orders(ls[i].queue),
    decreases i,
{
    if i == 0 {
        assert(ls.take(0) =~= Seq::<LevelV>::empty());
        let s1 = ls.take(1);
        assert(s1[0] == ls[0]);
        assert(s1.drop_first() =~= Seq::<LevelV>::empty());
        assert(flatten_spec(s1) == queue_orders(ls[0].queue) + flatten_spec(
            Seq::<LevelV>::empty(),
        ));
        assert(queue_orders(ls[0].queue) + Seq::<OrderV>::empty() =~= queue_orders(ls[0].queue));
        assert(Seq::<OrderV>::empty() + queue_orders(ls[0].queue) =~= queue_orders(ls[0].queue));
    } else {
        let d = ls.drop_first();
        lemma_flatten_snoc(d, i - 1);
        assert(ls.take(i + 1)[0] == ls[0]);
        assert(ls.take(i)[0] == ls[0]);
        assert(ls.take(i + 1).drop_first() =~= d.take(i));
        assert(ls.take(i).drop_first() =~= d.take(i - 1));
        assert(d[i - 1] == ls[i]);
        assert(flatten_spec(ls.take(i + 1)) == queue_orders(ls[0].queue) + flatten_spec(d.take(i)));
        assert(flatten_spec(ls.take(i)) == queue_orders(ls[0].queue) + flatten_spec(d.take(i - 1)));
        assert(queue_orders(ls[0].queue) + (flatten_spec(d.take(i - 1)) + queue_orders(ls[i].queue))
            =~= (queue_orders(ls[0].queue) + flatten_spec(d.take(i - 1))) + queue_orders(
            ls[i].queue,
        ));
    }
}

/// Flattens one side of a book for a snapshot: every resting order as a flat
/// record, price levels in ascending order, each queue front to back, the
/// record's `qty` carrying the remaining quantity.
pub fn flatten_side(levels: &Vec<Level>) -> (out: Vec<Order>)
    ensures
        out@.map_values(|o: Order| o@) == flatten_spec(crate::matching::lv(levels@)),
{
    let ghost ls = crate::matching::lv(levels@);
    let mut out: Vec<Order> = Vec::new();
    proof {
        assert(out@.map_values(|o: Order| o@) =~= flatten_spec(ls.take(0)));
        assert(ls.take(0) =~= Seq::<LevelV>::empty());
    }
    let mut i: usize = 0;
    while i < levels.len()
        invariant
            0 <= i <= levels@.len(),
            ls == crate::matching::lv(levels@),
            out@.map_values(|o: Order| o@) == flatten_spec(ls.take(i as int)),
        decreases levels@.len() - i,
    {
        let q = &levels[i].queue;
        proof {
            assert(ls[i as int] == levels@[i as int]@);
        }
        let mut j: usize = 0;
        while j < q.len()
            invariant
                0 <= j <= q@.len(),
                0 <= i < levels@.len(),
                q == &levels[i as int].queue,
                ls == crate::matching::lv(levels@),
                ls[i as int] == levels@[i as int]@,
                out@.map_values(|o: Order| o@) == flatten_spec(ls.take(i as int)) + queue_orders(
                    ls[i as int].queue.take(j as int),
                ),
            decreases q@.len() - j,
        {
            let ro = &q[j];
            let ghost pre = out@.map_values(|o: Order| o@);
            out.push(
                Order {
                    seq: ro.seq,
                    side: ro.side,
                    price: ro.price,
                    qty: ro.remaining_qty,
                    client_order_id: ro.client_order_id.clone(),
                },
            );
            proof {
                let rv = ls[i as int].queue[j as int];
                assert(rv == q@[j as int]@);
                assert(out@.map_values(|o: Order| o@) =~= pre.push(order_of_rest(rv)));
                assert(ls[i as int].queue.take(j + 1) =~= ls[i as int].queue.take(j as int).push(
                    rv,
                ));
                assert(queue_orders(ls[i as int].queue.take(j + 1)) =~= queue_orders(
                    ls[i as int].queue.take(j as int),
                ).push(order_of_rest(rv)));
                assert(pre.push(order_of_rest(rv)) =~= flatten_spec(ls.take(i as int))
                    + queue_orders(ls[i as int].queue.take(j + 1)));
            }
            j = j + 1;
        }
        proof {
            assert(ls[i as int].queue.take(ls[i as int].queue.len() as int) =~= ls[i as int].queue);
            lemma_flatten_snoc(ls, i as int);
        }
        i = i + 1;
    }
    proof {
        assert(ls.take(ls.len() as int) =~= ls);
    }
    out
}

/// Restores a flat snapshot side: each record pushed back into its price
/// level in the given order, which is the flattened FIFO order.
pub open spec fn unflatten(os: Seq<OrderV>) -> Seq<LevelV>
    decreases os.len(),
{
    if os.len() == 0 {
        Seq::<LevelV>::empty()
    } else {
        rest_into(unflatten(os.drop_last()), rest_of_order(os.last()))
    }
}

/// Rebuilds one side from its flat snapshot records, preserving the given
/// order within each price level.
pub fn unflatten_side(orders: &Vec<Order>) -> (ls: Vec<Level>)
    ensures
        crate::matching::lv(ls@) == unflatten(orders@.map_values(|o: Order| o@)),
{
    let ghost os = orders@.map_values(|o: Order| o@);
    let mut ls: Vec<Level> = Vec::new();
    proof {
        assert(crate::matching::lv(ls@) =~= Seq::<LevelV>::empty());
        assert(os.take(0) =~= Seq::<OrderV>::empty());
    }
    let mut i: usize = 0;
    while i < orders.len()
        invariant
            0 <= i <= orders@.len(),
            os == orders@.map_values(|o: Order| o@),
            crate::matching::lv(ls@) == unflatten(os.take(i as int)),
        decreases orders@.len() - i,
    {
        let o = &orders[i];
        let r = RestingOrder {
            seq: o.seq,
            side: o.side,
            price: o.price,
            remaining_qty: o.qty,
            client_order_id: o.client_order_id.clone(),
        };
        proof {
            assert(r@ == rest_of_order(os[i as int]));
            assert(os[i as int] == orders@[i as int]@);
            assert(os.take(i + 1).drop_last() =~= os.take(i as int));
            assert(os.take(i + 1).last() == os[i as int]);
        }
        crate::matching::rest_order(&mut ls, r);
        i = i + 1;
    }
    proof {
        assert(os.take(os.len() as int) =~= os);
    }
    ls
}

/// One book in a snapshot: the symbol and each side flattened to flat order
/// records (ascending price, FIFO within a level, `qty` carrying the
/// remaining quantity).
#[derive(Debug)]
pub struct SnapshotBook {
    pub symbol: String,
    pub bids: Vec<Order>,
    pub asks: Vec<Order>,
}

/// Mathematical model of a snapshot book.
pub ghost struct SnapshotBookV {
    pub symbol: Seq<char>,
    pub bids: Seq<OrderV>,
    pub asks: Seq<OrderV>,
}

impl View for SnapshotBook {
    type V = SnapshotBookV;

    open spec fn view(&self) -> SnapshotBookV {
        SnapshotBookV {
            symbol: self.symbol@,
            bids: self.bids@.map_values(|o: Order| o@),
            asks: self.asks@.map_values(|o: Order| o@),
        }
    }
}

/// A point-in-time serialization of resting book state: the sequence counter
/// and every book's resting orders. Completed fills are not snapshotted.
#[derive(Debug)]
pub struct Snapshot {
    pub seq: u64,
    pub books: Vec<SnapshotBook>,
}

/// Mathematical model of a snapshot.
pub ghost struct SnapshotV {
    pub seq: int,
    pub books: Seq<SnapshotBookV>,
}

impl View for Snapshot {
    type V = SnapshotV;

    open spec fn view(&self) -> SnapshotV {
        SnapshotV { seq: self.seq as int, books: self.books@.map_values(|b: SnapshotBook| b@) }
    }
}

/// The snapshot a given engine state serializes to.
pub open spec fn snapshot_spec(st: crate::engine::EngineV) -> SnapshotV {
    SnapshotV {
        seq: st.seq,
        books: st.books.map_values(
            |p: (Seq<char>, crate::book::BookV)| SnapshotBookV {
                symbol: p.0,
                bids: flatten_spec(p.1.bids),
                asks: flatten_spec(p.1.asks),
            },
        ),
    }
}

/// Builds the snapshot of the current engine state: the sequence counter and
/// every book flattened, in the books' insertion order.
pub fn snapshot_of(st: &crate::engine::EngineState) -> (s: Snapshot)
    ensures
        s@ == snapshot_spec(st@),
{
    let mut books: Vec<SnapshotBook> = Vec::new();
    let ghost bv = st@.books;
    proof {
        assert(books@.map_values(|b: SnapshotBook| b@) =~= bv.take(0).map_values(
            |p: (Seq<char>, crate::book::BookV)| SnapshotBookV {
                symbol: p.0,
                bids: flatten_spec(p.1.bids),
                asks: flatten_spec(p.1.asks),
            },
        ));
    }
    let mut i: usize = 0;
    while i < st.books.len()
        invariant
            0 <= i <= st.books@.len(),
            bv == st@.books,
            books@.map_values(|b: SnapshotBook| b@) == bv.take(i as int).map_values(
                |p: (Seq<char>, crate::book::BookV)| SnapshotBookV {
                    symbol: p.0,
                    bids: flatten_spec(p.1.bids),
                    asks: flatten_spec(p.1.asks),
                },
            ),
        decreases st.books@.len() - i,
    {
        let sb = &st.books[i];
        let ghost pre = books@.map_values(|b: SnapshotBook| b@);
        proof {
            assert(bv[i as int] == (sb.symbol@, sb.book@));
        }
        let bids = flatten_side(&sb.book.bids);
        let asks = flatten_side(&sb.book.asks);
        books.push(SnapshotBook { symbol: sb.symbol.clone(), bids, asks });
        proof {
            let entry = SnapshotBookV {
                symbol: bv[i as int].0,
                bids: flatten_spec(bv[i as int].1.bids),
                asks: flatten_spec(bv[i as int].1.asks),
            };
            assert(books@.map_values(|b: SnapshotBook| b@) =~= pre.push(entry));
            assert(bv.take(i + 1) =~= bv.take(i as int).push(bv[i as int]));
            assert(bv.take(i + 1).map_values(
                |p: (Seq<char>, crate::book::BookV)| SnapshotBookV {
                    symbol: p.0,
                    bids: flatten_spec(p.1.bids),
                    asks: flatten_spec(p.1.asks),
                },
            ) =~= pre.push(entry));
        }
        i = i + 1;
    }
    proof {
        assert(bv.take(bv.len() as int) =~= bv);
    }
    Snapshot { seq: st.seq, books }
}

/// What loading a snapshot into an engine does: the sequence counter becomes
/// the snapshot's, the books are rebuilt from the flat records exactly as
/// given (bypassing the matcher), and the trade state is untouched — the tape
/// is ephemeral and not restored.
pub open spec fn apply_snapshot_spec(st: crate::engine::EngineV, sn: SnapshotV) -> crate::engine::EngineV {
    crate::engine::EngineV {
        seq: sn.seq,
        next_trade_id: st.next_trade_id,
        books: sn.books.map_values(
            |b: SnapshotBookV| (
                b.symbol,
                crate::book::BookV { bids: unflatten(b.bids), asks: unflatten(b.asks) },
            ),
        ),
        tapes: st.tapes,
    }
}

/// Clips a count at the largest representable value.
pub open spec fn clip_count(x: int) -> int {
    if x > usize::MAX {
        usize::MAX as int
    } else {
        x
    }
}

/// The total number of resting orders a snapshot carries, over all books and
/// both sides.
pub open spec fn snapshot_orders_total(books: Seq<SnapshotBookV>) -> int
    decreases books.len(),
{
    if books.len() == 0 {
        0
    } else {
        books[0].bids.len() + books[0].asks.len() + snapshot_orders_total(books.drop_first())
    }
}

/// One more book adds both its sides' records to the total.
proof fn lemma_orders_total_snoc(books: Seq<SnapshotBookV>, i: int)
    requires
        0 <= i < books.len(),
    ensures
        snapshot_orders_total(books.take(i + 1)) == snapshot_orders_total(books.take(i))
            + books[i].bids.len() + books[i].asks.len(),
    decreases i,
{
    if i == 0 {
        assert(books.take(0) =~= Seq::<SnapshotBookV>::empty());
        let s1 = books.take(1);
        assert(s1[0] == books[0]);
        assert(s1.drop_first() =~= Seq::<SnapshotBookV>::empty());
    } else {
        let d = books.drop_first();
        lemma_orders_total_snoc(d, i - 1);
        assert(books.take(i + 1)[0] == books[0]);
        assert(books.take(i)[0] == books[0]);
        assert(books.take(i + 1).drop_first() =~= d.take(i));
        assert(books.take(i).drop_first() =~= d.take(i - 1));
        assert(d[i - 1] == books[i]);
    }
}

/// Loads a snapshot into the engine, replacing the books and the sequence
/// counter: each side is rebuilt by pushing the flat records back into their
/// price levels in the given order, which bypasses the matcher. Returns how
/// many books and how many resting orders were restored (the order count
/// clipped at the largest representable value).
pub fn apply_snapshot(st: &mut crate::engine::EngineState, snap: &Snapshot) -> (counts: (
    usize,
    usize,
))
    ensures
        final(st)@ == apply_snapshot_spec(old(st)@, snap@),
        counts.0 == snap.books@.len(),
        counts.1 as int == clip_count(snapshot_orders_total(snap@.books)),
{
    st.seq = snap.seq;
    let mut books: Vec<crate::engine::SymbolBook> = Vec::new();
    let mut orders: usize = 0;
    let ghost sv = snap@.books;
    proof {
        assert(books@.map_values(|sb: crate::engine::SymbolBook| (sb.symbol@, sb.book@))
            =~= sv.take(0).map_values(
            |b: SnapshotBookV| (
                b.symbol,
                crate::book::BookV { bids: unflatten(b.bids), asks: unflatten(b.asks) },
            ),
        ));
    }
    proof {
        assert(sv.take(0) =~= Seq::<SnapshotBookV>::empty());
    }
    let mut i: usize = 0;
    while i < snap.books.len()
        invariant
            0 <= i <= snap.books@.len(),
            sv == snap@.books,
            books@.map_values(|sb: crate::engine::SymbolBook| (sb.symbol@, sb.book@)) == sv.take(
                i as int,
            ).map_values(
                |b: SnapshotBookV| (
                    b.symbol,
                    crate::book::BookV { bids: unflatten(b.bids), asks: unflatten(b.asks) },
                ),
            ),
            orders as int == clip_count(snapshot_orders_total(sv.take(i as int))),
        decreases snap.books@.len() - i,
    {
        let b = &snap.books[i];
        let ghost pre = books@.map_values(
            |sb: crate::engine::SymbolBook| (sb.symbol@, sb.book@),
        );
        proof {
            assert(sv[i as int] == b@);
        }
        let bids = unflatten_side(&b.bids);
        let asks = unflatten_side(&b.asks);
        let n_orders = b.bids.len();
        let m_orders = b.asks.len();
        proof {
            lemma_orders_total_snoc(sv, i as int);
            assert(sv[i as int].bids.len() == b.bids@.len());
            assert(sv[i as int].asks.len() == b.asks@.len());
        }
        orders = if orders <= usize::MAX - n_orders {
            orders + n_orders
        } else {
            usize::MAX
        };
        orders = if orders <= usize::MAX - m_orders {
            orders + m_orders
        } else {
            usize::MAX
        };
        books.push(
            crate::engine::SymbolBook {
                symbol: b.symbol.clone(),
                book: crate::book::OrderBook { bids, asks },
            },
        );
        proof {
            let entry = (
                sv[i as int].symbol,
                crate::book::BookV {
                    bids: unflatten(sv[i as int].bids),
                    asks: unflatten(sv[i as int].asks),
                },
            );
            assert(books@.map_values(|sb: crate::engine::SymbolBook| (sb.symbol@, sb.book@))
                =~= pre.push(entry));
            assert(sv.take(i + 1) =~= sv.take(i as int).push(sv[i as int]));
            assert(sv.take(i + 1).map_values(
                |b: SnapshotBookV| (
                    b.symbol,
                    crate::book::BookV { bids: unflatten(b.bids), asks: unflatten(b.asks) },
                ),
            ) =~= pre.push(entry));
        }
        i = i + 1;
    }
    proof {
        assert(sv.take(sv.len() as int) =~= sv);
    }
    let count = snap.books.len();
    st.books = books;
    (count, orders)
}

/// Round trip: the snapshot of a well-formed engine, loaded into any engine,
/// reproduces the original books and sequence counter exactly.
pub proof fn lemma_snapshot_round_trip(st: crate::engine::EngineV, st0: crate::engine::EngineV)
    requires
        crate::engine::books_wf(st.books, st.seq),
    ensures
        apply_snapshot_spec(st0, snapshot_spec(st)).books == st.books,
        apply_snapshot_spec(st0, snapshot_spec(st)).seq == st.seq,
{
    let a = apply_snapshot_spec(st0, snapshot_spec(st));
    assert forall|i: int| 0 <= i < a.books.len() implies a.books[i] == st.books[i] by {
        let p = st.books[i];
        assert(crate::book::book_wf(p.1));
        lemma_unflatten_flatten(p.1.bids, Side::Buy);
        lemma_unflatten_flatten(p.1.asks, Side::Sell);
        assert(snapshot_spec(st).books[i] == SnapshotBookV {
            symbol: p.0,
            bids: flatten_spec(p.1.bids),
            asks: flatten_spec(p.1.asks),
        });
        assert(a.books[i] == (
            p.0,
            crate::book::BookV {
                bids: unflatten(flatten_spec(p.1.bids)),
                asks: unflatten(flatten_spec(p.1.asks)),
            },
        ));
    }
    assert(a.books =~= st.books);
}

/// Why a restore aborted. Restore corruption is fatal: the engine must not
/// begin serving from a state it cannot trust.
#[derive(Clone, Copy, PartialEq, Eq, Structural, Debug)]
pub enum RestoreError {
    MalformedSnapshot,
    MalformedWalLine,
    InvalidSide,
    EmptySymbol,
    NonMonotonicSeq,
}

/// Startup observability: what the restore found and replayed.
#[derive(Clone, Copy, PartialEq, Eq, Structural, Debug)]
pub struct RestoreStats {
    pub snapshot_present: bool,
    pub snapshot_seq: u64,
    pub snapshot_books: usize,
    pub snapshot_orders: usize,
    pub wal_replayed: usize,
    pub wal_after_seq: u64,
}

/// Whether a WAL record can be replayed at all: an engine only ever writes
/// records with a non-empty symbol and a known side tag.
pub open spec fn entry_replayable(e: WalEntryV) -> bool {
    &&& e.symbol.len() > 0
    &&& (e.side == side_tag(Side::Buy) || e.side == side_tag(Side::Sell))
}

/// One replayed record: the counter advances to the record's sequence number
/// and the order is re-applied to its book through the matcher. Trades are
/// not regenerated: the tape is ephemeral.
pub open spec fn replay_step(st: crate::engine::EngineV, e: WalEntryV) -> crate::engine::EngineV {
    crate::engine::EngineV {
        seq: e.seq,
        books: crate::engine::apply_entry_books(st.books, e),
        ..st
    }
}

/// Replaying a WAL tail: records at or below `after` are already covered by
/// the snapshot and skipped; every other record must carry a known side, a
/// non-empty symbol, and a sequence number above everything seen, and is then
/// re-applied. Returns the resulting engine, how many records were applied,
/// and the corruption found, if any (the fold stops there).
pub open spec fn replay_fold(st: crate::engine::EngineV, es: Seq<WalEntryV>, after: int) -> (
    crate::engine::EngineV,
    int,
    Option<RestoreError>,
)
    decreases es.len(),
{
    if es.len() == 0 {
        (st, 0, None)
    } else {
        let e = es[0];
        if e.seq <= after {
            replay_fold(st, es.drop_first(), after)
        } else if e.side != side_tag(Side::Buy) && e.side != side_tag(Side::Sell) {
            (st, 0, Some(RestoreError::InvalidSide))
        } else if e.symbol.len() == 0 {
            (st, 0, Some(RestoreError::EmptySymbol))
        } else if e.seq <= st.seq {
            (st, 0, Some(RestoreError::NonMonotonicSeq))
        } else {
            let r = replay_fold(replay_step(st, e), es.drop_first(), after);
            (r.0, 1 + r.1, r.2)
        }
    }
}

/// Replays parsed WAL records into the engine: skips records already covered
/// by `after_seq`, re-applies the rest in order through the matcher, and
/// advances the sequence counter to the highest sequence number seen. A
/// record with an unknown side tag, an empty symbol, or a sequence number
/// that does not advance past everything seen is corruption: the replay
/// aborts with the error, exactly as `replay_fold` says. Returns how many
/// records were applied.
pub fn replay_records_into(
    st: &mut crate::engine::EngineState,
    entries: &Vec<WalEntry>,
    after_seq: u64,
) -> (r: Result<usize, RestoreError>)
    requires
        old(st).wf(),
    ensures
        final(st).wf(),
        ({
            let f = replay_fold(old(st)@, entries@.map_values(|e: WalEntry| e@), after_seq as int);
            match r {
                Ok(n) => f.2 is None && final(st)@ == f.0 && n as int == f.1,
                Err(err) => f.2 == Some(err),
            }
        }),
{
    let ghost es = entries@.map_values(|e: WalEntry| e@);
    let mut applied: usize = 0;
    let buy = String::from_str("BUY");
    let sell = String::from_str("SELL");
    proof {
        assert(es.skip(0) =~= es);
    }
    let mut i: usize = 0;
    while i < entries.len()
        invariant
            0 <= i <= entries@.len(),
            es == entries@.map_values(|e: WalEntry| e@),
            buy@ == side_tag(Side::Buy),
            sell@ == side_tag(Side::Sell),
            st.wf(),
            applied <= i,
            ({
                let f0 = replay_fold(old(st)@, es, after_seq as int);
                let f = replay_fold(st@, es.skip(i as int), after_seq as int);
                &&& (f.2 is None ==> f0.2 is None && f0.0 == f.0 && f0.1 == applied + f.1)
                &&& (f.2 is Some ==> f0.2 == f.2)
            }),
        decreases entries@.len() - i,
    {
        let e = &entries[i];
        proof {
            assert(es.skip(i as int)[0] == es[i as int]);
            assert(es[i as int] == entries@[i as int]@);
            assert(es.skip(i as int).drop_first() =~= es.skip(i + 1));
        }
        if e.seq <= after_seq {
            i = i + 1;
            continue ;
        }
        let side_is_buy = e.side == buy;
        let side_is_sell = e.side == sell;
        if !side_is_buy && !side_is_sell {
            return Err(RestoreError::InvalidSide);
        }
        if e.symbol.as_str().is_empty() {
            return Err(RestoreError::EmptySymbol);
        }
        if e.seq <= st.seq {
            return Err(RestoreError::NonMonotonicSeq);
        }
        let ghost pre = st@;
        st.seq = e.seq;
        let _fills = crate::engine::apply_entry_exec(&mut st.books, e);
        proof {
            assert(st@ == replay_step(pre, es[i as int]));
            assert(crate::engine::books_wf(st@.books, st@.seq));
        }
        applied = applied + 1;
        i = i + 1;
    }
    proof {
        assert(es.skip(es.len() as int) =~= Seq::<WalEntryV>::empty());
    }
    Ok(applied)
}

/// Replay equivalence: replaying the WAL a run of accepted submits wrote,
/// starting from an engine with the same sequence counter and books (as a
/// fresh process restores them from the snapshot), rebuilds exactly the books
/// and the counter the run produced, with every record applied and no
/// corruption. The trade tape is ephemeral and not compared: replay does not
/// regenerate trades.
pub proof fn lemma_replay_equivalence(
    st: crate::engine::EngineV,
    rp: crate::engine::EngineV,
    reqs: Seq<crate::engine::SubmitV>,
    after: int,
)
    requires
        rp.books == st.books,
        rp.seq == st.seq,
        after <= st.seq,
        forall|k: int| 0 <= k < reqs.len() ==> (#[trigger] reqs[k]).symbol.len() > 0,
    ensures
        ({
            let f = replay_fold(rp, crate::engine::run_entries(st, reqs), after);
            let r = crate::engine::run_submits(st, reqs);
            &&& f.2 is None
            &&& f.0.books == r.books
            &&& f.0.seq == r.seq
            &&& f.1 == reqs.len()
        }),
    decreases reqs.len(),
{
    if reqs.len() == 0 {
    } else {
        let e = crate::engine::submit_entry(st, reqs[0]);
        let es = crate::engine::run_entries(st, reqs);
        assert(es[0] == e);
        assert(es.drop_first() =~= crate::engine::run_entries(
            crate::engine::submit_step(st, reqs[0]),
            reqs.drop_first(),
        ));
        assert(e.seq == st.seq + 1);
        assert(e.side == side_tag(reqs[0].side));
        assert(e.side == side_tag(Side::Buy) || e.side == side_tag(Side::Sell));
        assert(e.symbol.len() > 0);
        let rp1 = replay_step(rp, e);
        let st1 = crate::engine::submit_step(st, reqs[0]);
        assert(st1.books == crate::engine::apply_entry_books(st.books, e));
        assert(st1.seq == st.seq + 1);
        assert(rp1.books == st1.books && rp1.seq == st1.seq);
        assert forall|k: int| 0 <= k < reqs.drop_first().len() implies (#[trigger] reqs.drop_first()[
        k]).symbol.len() > 0 by {
            assert(reqs.drop_first()[k] == reqs[k + 1]);
        }
        lemma_replay_equivalence(st1, rp1, reqs.drop_first(), after);
    }
}

/// Resting an order priced above every level appends a fresh level at the
/// end.
proof fn lemma_rest_into_append(ls: Seq<LevelV>, r: RestV)
    requires
        forall|j: int| 0 <= j < ls.len() ==> (#[trigger] ls[j]).price < r.price,
    ensures
        rest_into(ls, r) == ls + seq![LevelV { price: r.price, queue: seq![r] }],
    decreases ls.len(),
{
    let lvl = LevelV { price: r.price, queue: seq![r] };
    if ls.len() == 0 {
        assert(rest_into(ls, r) =~= ls + seq![lvl]);
    } else {
        assert(ls[0].price < r.price);
        let d = ls.drop_first();
        assert forall|j: int| 0 <= j < d.len() implies (#[trigger] d[j]).price < r.price by {
            assert(d[j] == ls[j + 1]);
        }
        lemma_rest_into_append(d, r);
        assert(seq![ls[0]] + (d + seq![lvl]) =~= ls + seq![lvl]);
    }
}

/// Resting an order at the last level's price appends it to that queue.
proof fn lemma_rest_into_same_last(ls: Seq<LevelV>, r: RestV)
    requires
        ls.len() > 0,
        ls.last().price == r.price,
        forall|j: int| 0 <= j < ls.len() - 1 ==> (#[trigger] ls[j]).price < r.price,
    ensures
        rest_into(ls, r) == ls.update(
            ls.len() - 1,
            LevelV { price: ls.last().price, queue: ls.last().queue.push(r) },
        ),
    decreases ls.len(),
{
    let n = ls.len() - 1;
    if n == 0 {
        assert(ls[0].price == r.price);
    } else {
        assert(ls[0].price < r.price);
        let d = ls.drop_first();
        assert(d.last() == ls.last());
        assert forall|j: int| 0 <= j < d.len() - 1 implies (#[trigger] d[j]).price < r.price by {
            assert(d[j] == ls[j + 1]);
        }
        lemma_rest_into_same_last(d, r);
        assert(seq![ls[0]] + d.update(
            d.len() - 1,
            LevelV { price: d.last().price, queue: d.last().queue.push(r) },
        ) =~= ls.update(n, LevelV { price: ls.last().price, queue: ls.last().queue.push(r) }));
    }
}

/// Dropping the last (most recent) order of a level with several orders
/// keeps a side well formed.
proof fn lemma_side_wf_drop_last_order(ls: Seq<LevelV>, side: Side)
    requires
        crate::book::side_wf(ls, side),
        ls.len() > 0,
        ls.last().queue.len() > 1,
    ensures
        crate::book::side_wf(
            ls.update(
                ls.len() - 1,
                LevelV { price: ls.last().price, queue: ls.last().queue.drop_last() },
            ),
            side,
        ),
{
    let n = ls.len() - 1;
    let lvl2 = LevelV { price: ls.last().price, queue: ls.last().queue.drop_last() };
    let u = ls.update(n, lvl2);
    assert forall|i: int| 0 <= i < u.len() implies crate::book::level_wf(#[trigger] u[i], side)
        && u[i].price >= 0 by {
        if i == n {
            let q = ls.last().queue;
            let d = q.drop_last();
            assert(crate::book::level_wf(ls[n], side));
            assert forall|m: int| 0 <= m < d.len() implies {
                &&& (#[trigger] d[m]).price == lvl2.price
                &&& d[m].qty > 0
                &&& d[m].side == side
            } by {
                assert(d[m] == q[m]);
            }
            assert forall|m: int, k: int|
                #![trigger d[m].seq, d[k].seq]
                0 <= m < k < d.len() implies d[m].seq < d[k].seq by {
                assert(d[m] == q[m] && d[k] == q[k]);
            }
        }
    }
}

/// Restoring a flattened well-formed side reproduces it exactly: the levels
/// come back in the same price order with the same queues.
pub proof fn lemma_unflatten_flatten(ls: Seq<LevelV>, side: Side)
    requires
        crate::book::side_wf(ls, side),
    ensures
        unflatten(flatten_spec(ls)) == ls,
    decreases ls.len(), (if ls.len() > 0 {
        ls.last().queue.len()
    } else {
        0
    }),
{
    if ls.len() == 0 {
        assert(flatten_spec(ls) =~= Seq::<OrderV>::empty());
        assert(unflatten(Seq::<OrderV>::empty()) =~= Seq::<LevelV>::empty());
    } else {
        let n = ls.len() - 1;
        let lvl = ls.last();
        let q = lvl.queue;
        assert(crate::book::level_wf(lvl, side));
        assert(ls.take(n + 1) =~= ls);
        lemma_flatten_snoc(ls, n);
        assert(ls.take(n) =~= ls.drop_last());
        let f = flatten_spec(ls);
        assert(f == flatten_spec(ls.drop_last()) + queue_orders(q));
        assert(queue_orders(q).len() == q.len());
        assert(f.last() == queue_orders(q)[q.len() - 1]);
        assert(queue_orders(q)[q.len() - 1] == order_of_rest(q.last()));
        assert(rest_of_order(order_of_rest(q.last())) == q.last());
        if q.len() == 1 {
            assert(f.drop_last() =~= flatten_spec(ls.drop_last()));
            crate::matching::lemma_side_wf_drop_last(ls, side);
            lemma_unflatten_flatten(ls.drop_last(), side);
            assert forall|j: int| 0 <= j < ls.drop_last().len() implies (#[trigger] ls.drop_last()[
            j]).price < q.last().price by {
                assert(ls.drop_last()[j] == ls[j]);
                assert(ls[j].price < ls[n].price);
                assert(q.last().price == lvl.price);
            }
            lemma_rest_into_append(ls.drop_last(), q.last());
            assert(lvl.queue =~= seq![q.last()]);
            assert(LevelV { price: q.last().price, queue: seq![q.last()] } == lvl);
            assert(ls.drop_last() + seq![lvl] =~= ls);
        } else {
            let q2 = q.drop_last();
            let lvl2 = LevelV { price: lvl.price, queue: q2 };
            let ls2 = ls.update(n, lvl2);
            lemma_side_wf_drop_last_order(ls, side);
            // the flattened side without its last record is the flattened
            // side of the book without that order
            assert(ls2.take(n + 1) =~= ls2);
            lemma_flatten_snoc(ls2, n);
            assert(ls2.take(n) =~= ls.drop_last());
            assert(ls2[n] == lvl2);
            assert(flatten_spec(ls2) == flatten_spec(ls.drop_last()) + queue_orders(q2));
            assert(queue_orders(q2) =~= queue_orders(q).drop_last());
            assert(f.drop_last() =~= flatten_spec(ls.drop_last()) + queue_orders(q2));
            lemma_unflatten_flatten(ls2, side);
            assert forall|j: int| 0 <= j < ls2.len() - 1 implies (#[trigger] ls2[j]).price
                < q.last().price by {
                assert(ls2[j] == ls[j]);
                assert(ls[j].price < ls[n].price);
                assert(q.last().price == lvl.price);
            }
            assert(ls2.last() == lvl2);
            assert(ls2.last().price == q.last().price);
            lemma_rest_into_same_last(ls2, q.last());
            assert(q2.push(q.last()) =~= q);
            assert(ls2.update(n, LevelV { price: lvl2.price, queue: q2.push(q.last()) }) =~= ls);
        }
    }
}

/// Whether a character is white space a line may carry around its payload:
/// the Unicode white-space characters, as standard trimming removes them.
pub open spec fn is_line_ws(c: char) -> bool {
    ||| 9 <= (c as u32) && (c as u32) <= 13
    ||| c as u32 == 32
    ||| c as u32 == 0x85
    ||| c as u32 == 0xA0
    ||| c as u32 == 0x1680
    ||| 0x2000 <= (c as u32) && (c as u32) <= 0x200A
    ||| c as u32 == 0x2028
    ||| c as u32 == 0x2029
    ||| c as u32 == 0x202F
    ||| c as u32 == 0x205F
    ||| c as u32 == 0x3000
}

/// A line without its leading blank space.
pub open spec fn trim_front(s: Seq<char>) -> Seq<char>
    decreases s.len(),
{
    if s.len() > 0 && is_line_ws(s[0]) {
        trim_front(s.drop_first())
    } else {
        s
    }
}

/// A line without its trailing blank space.
pub open spec fn trim_back(s: Seq<char>) -> Seq<char>
    decreases s.len(),
{
    if s.len() > 0 && is_line_ws(s.last()) {
        trim_back(s.drop_last())
    } else {
        s
    }
}

/// A line without its leading and trailing blank space.
pub open spec fn line_trim(s: Seq<char>) -> Seq<char> {
    trim_back(trim_front(s))
}

fn line_ws_exec(c: char) -> (b: bool)
    ensures
        b == is_line_ws(c),
{
    let u = c as u32;
    (9 <= u && u <= 13) || u == 32 || u == 0x85 || u == 0xA0 || u == 0x1680 || (0x2000 <= u && u
        <= 0x200A) || u == 0x2028 || u == 0x2029 || u == 0x202F || u == 0x205F || u == 0x3000
}

/// Trims leading and trailing blank space from a line.
pub fn trim_line(s: &str) -> (r: &str)
    ensures
        r@ == line_trim(s@),
{
    let n = vstd::string::StrSliceExecFns::unicode_len(s);
    proof {
        assert(s@.skip(0) =~= s@);
    }
    let mut a: usize = 0;
    while a < n && line_ws_exec(vstd::string::StrSliceExecFns::get_char(s, a))
        invariant
            0 <= a <= n,
            n == s@.len(),
            trim_front(s@) == trim_front(s@.skip(a as int)),
        decreases n - a,
    {
        proof {
            assert(s@.skip(a as int)[0] == s@[a as int]);
            assert(s@.skip(a as int).drop_first() =~= s@.skip(a + 1));
        }
        a = a + 1;
    }
    proof {
        if a < n {
            assert(s@.skip(a as int)[0] == s@[a as int]);
        }
        assert(trim_front(s@) == s@.skip(a as int));
    }
    let mut b: usize = n;
    while b > a && line_ws_exec(vstd::string::StrSliceExecFns::get_char(s, b - 1))
        invariant
            a <= b <= n,
            n == s@.len(),
            trim_front(s@) == s@.skip(a as int),
            trim_back(s@.skip(a as int)) == trim_back(s@.subrange(a as int, b as int)),
        decreases b,
    {
        proof {
            let t = s@.subrange(a as int, b as int);
            assert(t.last() == s@[b - 1]);
            assert(t.drop_last() =~= s@.subrange(a as int, b - 1));
        }
        b = b - 1;
    }
    proof {
        let t = s@.subrange(a as int, b as int);
        if b > a {
            assert(t.last() == s@[b - 1]);
        }
        assert(trim_back(t) == t);
        assert(s@.skip(a as int) =~= s@.subrange(a as int, n as int));
    }
    let r = vstd::string::StrSliceExecFns::substring_char(s, a, b);
    r
}

/// The entries a WAL text's lines denote: blank lines are skipped, every
/// other line must parse, in order.
pub open spec fn parse_wal_lines(lines: Seq<Seq<char>>) -> Option<Seq<WalEntryV>>
    decreases lines.len(),
{
    if lines.len() == 0 {
        Some(Seq::<WalEntryV>::empty())
    } else {
        let t = line_trim(lines[0]);
        if t.len() == 0 {
            parse_wal_lines(lines.drop_first())
        } else {
            match crate::codec::parse_wal_entry_spec(t) {
                None => None,
                Some(e) => match parse_wal_lines(lines.drop_first()) {
                    None => None,
                    Some(es) => Some(seq![e] + es),
                },
            }
        }
    }
}

/// Parses the lines of a WAL text into entries: blank lines are skipped and
/// any other line that does not parse is corruption.
pub fn parse_wal_text(lines: &Vec<String>) -> (r: Result<Vec<WalEntry>, RestoreError>)
    ensures
        ({
            let lv = lines@.map_values(|l: String| l@);
            match r {
                Ok(es) => parse_wal_lines(lv) == Some(es@.map_values(|e: WalEntry| e@)),
                Err(err) => parse_wal_lines(lv) is None && err == RestoreError::MalformedWalLine,
            }
        }),
{
    let ghost lv = lines@.map_values(|l: String| l@);
    let mut out: Vec<WalEntry> = Vec::new();
    proof {
        assert(lv.skip(0) =~= lv);
        assert(out@.map_values(|e: WalEntry| e@) =~= Seq::<WalEntryV>::empty());
    }
    let mut i: usize = 0;
    while i < lines.len()
        invariant
            0 <= i <= lines@.len(),
            lv == lines@.map_values(|l: String| l@),
            ({
                let whole = parse_wal_lines(lv);
                let restp = parse_wal_lines(lv.skip(i as int));
                match restp {
                    Some(es) => whole == Some(out@.map_values(|e: WalEntry| e@) + es),
                    None => whole is None,
                }
            }),
        decreases lines@.len() - i,
    {
        proof {
            assert(lv.skip(i as int)[0] == lv[i as int]);
            assert(lv[i as int] == lines@[i as int]@);
            assert(lv.skip(i as int).drop_first() =~= lv.skip(i + 1));
        }
        let t = trim_line(lines[i].as_str());
        if !t.is_empty() {
            match crate::codec::parse_wal_entry(t) {
                Some(e) => {
                    let ghost pre = out@.map_values(|e: WalEntry| e@);
                    let ghost ev = e@;
                    out.push(e);
                    proof {
                        assert(out@.map_values(|e: WalEntry| e@) =~= pre.push(ev));
                        match parse_wal_lines(lv.skip(i + 1)) {
                            Some(es) => {
                                assert(pre.push(ev) + es =~= pre + (seq![ev] + es));
                            },
                            None => {},
                        }
                    }
                },
                None => {
                    return Err(RestoreError::MalformedWalLine);
                },
            }
        }
        i = i + 1;
    }
    proof {
        assert(lv.skip(lv.len() as int) =~= Seq::<Seq<char>>::empty());
        assert(out@.map_values(|e: WalEntry| e@) + Seq::<WalEntryV>::empty() =~= out@.map_values(
            |e: WalEntry| e@,
        ));
    }
    Ok(out)
}

/// The directory prefix of a path, up to and including its last separator
/// (empty for a bare file name).
pub open spec fn dir_prefix(p: Seq<char>) -> Seq<char>
    decreases p.len(),
{
    if p.len() == 0 {
        Seq::<char>::empty()
    } else if p.last() == '/' {
        p
    } else {
        dir_prefix(p.drop_last())
    }
}

/// Where the snapshot of a WAL lives: `snapshot.json` beside the log.
pub open spec fn snapshot_path_of(p: Seq<char>) -> Seq<char> {
    dir_prefix(p) + "snapshot.json"@
}

/// The write-ahead log's location, and the snapshot location derived from
/// it. The file I/O itself happens outside the library against these paths.
#[derive(Debug)]
pub struct Wal {
    pub path: String,
    pub snapshot_path: String,
}

impl Clone for Wal {
    /// Clones preserve both paths exactly.
    fn clone(&self) -> (r: Self)
        ensures
            r == self,
    {
        Wal { path: self.path.clone(), snapshot_path: self.snapshot_path.clone() }
    }
}

impl Wal {
    /// Creates a WAL handle for the given path; the snapshot lives as
    /// `snapshot.json` in the same directory.
    pub fn new(path: String) -> (w: Wal)
        ensures
            w.path@ == path@,
            w.snapshot_path@ == snapshot_path_of(path@),
    {
        let n = vstd::string::StrSliceExecFns::unicode_len(path.as_str());
        proof {
            assert(path@.take(n as int) =~= path@);
        }
        let mut k: usize = n;
        while k > 0 && vstd::string::StrSliceExecFns::get_char(path.as_str(), k - 1) != '/'
            invariant
                0 <= k <= n,
                n == path@.len(),
                dir_prefix(path@) == dir_prefix(path@.take(k as int)),
            decreases k,
        {
            proof {
                let t = path@.take(k as int);
                assert(t.last() == path@[k - 1]);
                assert(t.drop_last() =~= path@.take(k - 1));
            }
            k = k - 1;
        }
        proof {
            let t = path@.take(k as int);
            if k > 0 {
                assert(t.last() == path@[k - 1]);
                assert(dir_prefix(t) == t);
            } else {
                assert(t =~= Seq::<char>::empty());
            }
        }
        let prefix = vstd::string::StrSliceExecFns::substring_char(path.as_str(), 0, k);
        let mut sp = prefix.to_owned();
        vstd::string::StringExecFns::append(&mut sp, "snapshot.json");
        proof {
            assert(sp@ =~= snapshot_path_of(path@));
        }
        Wal { path, snapshot_path: sp }
    }

    /// The WAL file's path.
    pub fn wal_path(&self) -> (r: &String)
        ensures
            r@ == self.path@,
    {
        &self.path
    }

    /// The snapshot file's path.
    pub fn snapshot_path(&self) -> (r: &String)
        ensures
            r@ == self.snapshot_path@,
    {
        &self.snapshot_path
    }

    /// The restore pipeline: loads the snapshot into the empty engine if one
    /// exists and validates what it rebuilt — the books must be well formed,
    /// never crossed at rest, and settled at or before the snapshot's
    /// sequence number, as the engine wrote them — then replays every WAL
    /// line whose sequence number the snapshot does not cover, leaving the
    /// sequence counter at the highest value observed. Corruption — a
    /// snapshot that fails validation, an unparsable line, an unknown side,
    /// an empty symbol, a sequence number that does not advance — aborts the
    /// restore; the engine must not serve from a state it cannot trust.
    pub fn replay_into_with_stats(
        &self,
        st: &mut crate::engine::EngineState,
        snapshot: Option<&Snapshot>,
        wal_lines: &Vec<String>,
    ) -> (r: Result<RestoreStats, RestoreError>)
        requires
            old(st)@.books == Seq::<(Seq<char>, crate::book::BookV)>::empty(),
            old(st)@.tapes == Seq::<(Seq<char>, Seq<crate::engine::TradeV>)>::empty(),
            old(st)@.seq == 0,
        ensures
            ({
                let st1 = match snapshot {
                    Some(sn) => apply_snapshot_spec(old(st)@, sn@),
                    None => old(st)@,
                };
                let after = match snapshot {
                    Some(sn) => sn@.seq,
                    None => 0int,
                };
                let lv = wal_lines@.map_values(|l: String| l@);
                let snap_ok = crate::engine::books_wf(st1.books, st1.seq);
                match r {
                    Ok(stats) => {
                        &&& snap_ok
                        &&& match parse_wal_lines(lv) {
                            Some(es) => {
                                let f = replay_fold(st1, es, after);
                                &&& f.2 is None
                                &&& final(st)@ == f.0
                                &&& stats.wal_replayed as int == f.1
                                &&& stats.snapshot_present == snapshot is Some
                                &&& stats.snapshot_seq as int == after
                                &&& stats.wal_after_seq as int == after
                                &&& stats.snapshot_books as int == match snapshot {
                                    Some(sn) => sn@.books.len() as int,
                                    None => 0int,
                                }
                                &&& stats.snapshot_orders as int == match snapshot {
                                    Some(sn) => clip_count(snapshot_orders_total(sn@.books)),
                                    None => 0int,
                                }
                                &&& final(st).wf()
                            },
                            None => false,
                        }
                    },
                    Err(err) => if !snap_ok {
                        err == RestoreError::MalformedSnapshot
                    } else {
                        match parse_wal_lines(lv) {
                            Some(es) => replay_fold(st1, es, after).2 == Some(err),
                            None => err == RestoreError::MalformedWalLine,
                        }
                    },
                }
            }),
    {
        let mut stats = RestoreStats {
            snapshot_present: false,
            snapshot_seq: 0,
            snapshot_books: 0,
            snapshot_orders: 0,
            wal_replayed: 0,
            wal_after_seq: 0,
        };
        match snapshot {
            Some(sn) => {
                let (books, orders) = apply_snapshot(st, sn);
                if !books_check(&st.books, st.seq) {
                    return Err(RestoreError::MalformedSnapshot);
                }
                stats.snapshot_present = true;
                stats.snapshot_seq = sn.seq;
                stats.snapshot_books = books;
                stats.snapshot_orders = orders;
                stats.wal_after_seq = sn.seq;
            },
            None => {},
        }
        proof {
            assert(st.wf());
        }
        let entries = match parse_wal_text(wal_lines) {
            Ok(es) => es,
            Err(err) => {
                return Err(err);
            },
        };
        let after = stats.wal_after_seq;
        match crate::wal::replay_records_into(st, &entries, after) {
            Ok(n) => {
                stats.wal_replayed = n;
                Ok(stats)
            },
            Err(err) => Err(err),
        }
    }
}


/// Checks one resting queue against the level invariant: every order at the
/// level's price on the level's side with positive remaining quantity, in
/// strictly ascending arrival order, none arriving after `max_seq`.
fn level_check(l: &Level, side: Side, max_seq: u64) -> (r: bool)
    ensures
        r == ({
            &&& crate::book::level_wf(l@, side)
            &&& l@.price >= 0
            &&& forall|m: int| 0 <= m < l@.queue.len() ==> (#[trigger] l@.queue[m]).seq < max_seq + 1
        }),
{
    if l.price < 0 {
        return false;
    }
    if l.queue.len() == 0 {
        return false;
    }
    let ghost q = l@.queue;
    let mut ok = true;
    let mut j: usize = 0;
    while j < l.queue.len()
        invariant
            0 <= j <= l.queue@.len(),
            q == l@.queue,
            q.len() == l.queue@.len(),
            ok == ({
                &&& forall|m: int|
                    0 <= m < j ==> {
                        &&& (#[trigger] q[m]).price == l@.price
                        &&& q[m].qty > 0
                        &&& q[m].side == side
                        &&& q[m].seq < max_seq + 1
                    }
                &&& forall|m: int, n: int|
                    #![trigger q[m].seq, q[n].seq]
                    0 <= m < n < j ==> q[m].seq < q[n].seq
            }),
        decreases l.queue@.len() - j,
    {
        let ro = &l.queue[j];
        let c = ro.price == l.price && ro.remaining_qty > 0 && ro.side == side && ro.seq <= max_seq
            && (j == 0 || l.queue[j - 1].seq < ro.seq);
        proof {
            assert(q[j as int] == l.queue@[j as int]@);
            if j > 0 {
                assert(q[j - 1] == l.queue@[j - 1]@);
            }
            let pre_ok = ({
                &&& forall|m: int|
                    0 <= m < j ==> {
                        &&& (#[trigger] q[m]).price == l@.price
                        &&& q[m].qty > 0
                        &&& q[m].side == side
                        &&& q[m].seq < max_seq + 1
                    }
                &&& forall|m: int, n: int|
                    #![trigger q[m].seq, q[n].seq]
                    0 <= m < n < j ==> q[m].seq < q[n].seq
            });
            let post_ok = ({
                &&& forall|m: int|
                    0 <= m < j + 1 ==> {
                        &&& (#[trigger] q[m]).price == l@.price
                        &&& q[m].qty > 0
                        &&& q[m].side == side
                        &&& q[m].seq < max_seq + 1
                    }
                &&& forall|m: int, n: int|
                    #![trigger q[m].seq, q[n].seq]
                    0 <= m < n < j + 1 ==> q[m].seq < q[n].seq
            });
            if pre_ok && c {
                // the fresh pairs end at index j: chain through the previous
                // last element
                assert forall|m: int, n: int|
                    #![trigger q[m].seq, q[n].seq]
                    0 <= m < n < j + 1 implies q[m].seq < q[n].seq by {
                    if n == j && m < j && j > 0 {
                        if m < j - 1 {
                            assert(q[m].seq < q[j - 1].seq);
                        }
                    }
                }
                assert(post_ok);
            }
            if !pre_ok {
                assert(!post_ok);
            }
            if pre_ok && !c {
                assert(!post_ok) by {
                    if post_ok {
                        assert(q[j as int].price == l@.price && q[j as int].qty > 0
                            && q[j as int].side == side && q[j as int].seq < max_seq + 1);
                        if j > 0 {
                            assert(q[j - 1].seq < q[j as int].seq);
                        }
                    }
                }
            }
        }
        ok = ok && c;
        j = j + 1;
    }
    proof {
        if ok {
            assert(crate::book::level_wf(l@, side));
        } else {
            assert(!crate::book::level_wf(l@, side) || !(forall|m: int|
                0 <= m < q.len() ==> (#[trigger] q[m]).seq < max_seq + 1)) by {
                if crate::book::level_wf(l@, side) && (forall|m: int|
                    0 <= m < q.len() ==> (#[trigger] q[m]).seq < max_seq + 1) {
                    assert(forall|m: int|
                        0 <= m < q.len() ==> {
                            &&& (#[trigger] q[m]).price == l@.price
                            &&& q[m].qty > 0
                            &&& q[m].side == side
                            &&& q[m].seq < max_seq + 1
                        });
                }
            }
        }
    }
    ok
}

/// Checks one rebuilt side against the side invariant, with every arrival at
/// or before `max_seq`: rebuilt state from outside the engine is validated
/// before the engine trusts it.
fn side_check(ls: &Vec<Level>, side: Side, max_seq: u64) -> (r: bool)
    ensures
        r == ({
            &&& crate::book::side_wf(crate::matching::lv(ls@), side)
            &&& crate::matching::side_seq_lt(crate::matching::lv(ls@), max_seq + 1)
        }),
{
    let ghost v = crate::matching::lv(ls@);
    let mut ok = true;
    let mut i: usize = 0;
    while i < ls.len()
        invariant
            0 <= i <= ls@.len(),
            v == crate::matching::lv(ls@),
            v.len() == ls@.len(),
            ok == ({
                &&& forall|k: int|
                    0 <= k < i ==> crate::book::level_wf(#[trigger] v[k], side) && v[k].price >= 0
                &&& forall|k1: int, k2: int|
                    #![trigger v[k1].price, v[k2].price]
                    0 <= k1 < k2 < i ==> v[k1].price < v[k2].price
                &&& forall|k: int, m: int|
                    0 <= k < i && 0 <= m < v[k].queue.len() ==> (#[trigger] v[k].queue[m]).seq
                        < max_seq + 1
            }),
        decreases ls@.len() - i,
    {
        let c = level_check(&ls[i], side, max_seq) && (i == 0 || ls[i - 1].price < ls[i].price);
        proof {
            assert(v[i as int] == ls@[i as int]@);
            if i > 0 {
                assert(v[i - 1] == ls@[i - 1]@);
            }
            let pre_ok = ({
                &&& forall|k: int|
                    0 <= k < i ==> crate::book::level_wf(#[trigger] v[k], side) && v[k].price >= 0
                &&& forall|k1: int, k2: int|
                    #![trigger v[k1].price, v[k2].price]
                    0 <= k1 < k2 < i ==> v[k1].price < v[k2].price
                &&& forall|k: int, m: int|
                    0 <= k < i && 0 <= m < v[k].queue.len() ==> (#[trigger] v[k].queue[m]).seq
                        < max_seq + 1
            });
            let post_ok = ({
                &&& forall|k: int|
                    0 <= k < i + 1 ==> crate::book::level_wf(#[trigger] v[k], side) && v[k].price
                        >= 0
                &&& forall|k1: int, k2: int|
                    #![trigger v[k1].price, v[k2].price]
                    0 <= k1 < k2 < i + 1 ==> v[k1].price < v[k2].price
                &&& forall|k: int, m: int|
                    0 <= k < i + 1 && 0 <= m < v[k].queue.len() ==> (#[trigger] v[k].queue[m]).seq
                        < max_seq + 1
            });
            if pre_ok && c {
                assert forall|k1: int, k2: int|
                    #![trigger v[k1].price, v[k2].price]
                    0 <= k1 < k2 < i + 1 implies v[k1].price < v[k2].price by {
                    if k2 == i && k1 < i && i > 0 {
                        if k1 < i - 1 {
                            assert(v[k1].price < v[i - 1].price);
                        }
                    }
                }
                assert(post_ok);
            }
            if !pre_ok {
                assert(!post_ok);
            }
            if pre_ok && !c {
                assert(!post_ok) by {
                    if post_ok {
                        assert(crate::book::level_wf(v[i as int], side) && v[i as int].price >= 0);
                        assert(forall|m: int|
                            0 <= m < v[i as int].queue.len() ==> (#[trigger] v[i as int].queue[
                            m]).seq < max_seq + 1);
                        if i > 0 {
                            assert(v[i - 1].price < v[i as int].price);
                        }
                    }
                }
            }
        }
        ok = ok && c;
        i = i + 1;
    }
    proof {
        if ok {
            assert(crate::book::side_wf(v, side));
            assert(crate::matching::side_seq_lt(v, max_seq + 1));
        } else {
            assert(!(crate::book::side_wf(v, side) && crate::matching::side_seq_lt(
                v,
                max_seq + 1,
            ))) by {
                if crate::book::side_wf(v, side) && crate::matching::side_seq_lt(v, max_seq + 1) {
                    assert(forall|k: int|
                        0 <= k < v.len() ==> crate::book::level_wf(#[trigger] v[k], side)
                            && v[k].price >= 0);
                    assert(forall|k: int, m: int|
                        0 <= k < v.len() && 0 <= m < v[k].queue.len() ==> (#[trigger] v[k].queue[
                        m]).seq < max_seq + 1);
                }
            }
        }
    }
    ok
}

/// Checks a whole set of rebuilt books against the engine invariant: each
/// book well formed and never crossed at rest, keyed by distinct non-empty
/// symbols, with no resting order arriving after `seq`. This is how state
/// loaded from outside the engine is validated before the engine serves it.
pub fn books_check(books: &Vec<crate::engine::SymbolBook>, seq: u64) -> (r: bool)
    ensures
        r == crate::engine::books_wf(
            books@.map_values(|sb: crate::engine::SymbolBook| (sb.symbol@, sb.book@)),
            seq as int,
        ),
{
    let ghost v = books@.map_values(|sb: crate::engine::SymbolBook| (sb.symbol@, sb.book@));
    let mut ok = true;
    let mut i: usize = 0;
    while i < books.len()
        invariant
            0 <= i <= books@.len(),
            v == books@.map_values(|sb: crate::engine::SymbolBook| (sb.symbol@, sb.book@)),
            v.len() == books@.len(),
            ok == ({
                &&& forall|k: int|
                    0 <= k < i ==> {
                        &&& crate::book::book_wf((#[trigger] v[k]).1)
                        &&& v[k].0.len() > 0
                        &&& crate::matching::book_seq_lt(v[k].1, seq + 1)
                    }
                &&& forall|k1: int, k2: int|
                    #![trigger v[k1].0, v[k2].0]
                    0 <= k1 < k2 < i ==> v[k1].0 != v[k2].0
            }),
        decreases books@.len() - i,
    {
        let sb = &books[i];
        proof {
            assert(v[i as int] == (sb.symbol@, sb.book@));
        }
        let bids_n = sb.book.bids.len();
        let noncross = bids_n == 0 || sb.book.asks.len() == 0 || sb.book.bids[bids_n
            - 1].price < sb.book.asks[0].price;
        proof {
            if bids_n > 0 {
                assert(sb.book@.bids[bids_n - 1] == sb.book.bids@[bids_n - 1]@);
            }
            if sb.book.asks@.len() > 0 {
                assert(sb.book@.asks[0] == sb.book.asks@[0]@);
            }
            assert(noncross == (sb.book@.bids.len() == 0 || sb.book@.asks.len() == 0
                || crate::book::best_bid_price(sb.book@.bids) < crate::book::best_ask_price(
                sb.book@.asks,
            )));
        }
        let mut distinct = true;
        let mut j: usize = 0;
        while j < i
            invariant
                0 <= j <= i <= books@.len(),
                v == books@.map_values(|sb: crate::engine::SymbolBook| (sb.symbol@, sb.book@)),
                v.len() == books@.len(),
                sb == &books[i as int],
                v[i as int] == (sb.symbol@, sb.book@),
                distinct == (forall|k: int| 0 <= k < j ==> (#[trigger] v[k]).0 != v[i as int].0),
            decreases i - j,
        {
            let d = books[j].symbol != sb.symbol;
            proof {
                assert(v[j as int] == (books@[j as int].symbol@, books@[j as int].book@));
            }
            distinct = distinct && d;
            j = j + 1;
        }
        let c = !sb.symbol.as_str().is_empty() && side_check(&sb.book.bids, Side::Buy, seq)
            && side_check(&sb.book.asks, Side::Sell, seq) && noncross && distinct;
        proof {
            let pre_ok = ({
                &&& forall|k: int|
                    0 <= k < i ==> {
                        &&& crate::book::book_wf((#[trigger] v[k]).1)
                        &&& v[k].0.len() > 0
                        &&& crate::matching::book_seq_lt(v[k].1, seq + 1)
                    }
                &&& forall|k1: int, k2: int|
                    #![trigger v[k1].0, v[k2].0]
                    0 <= k1 < k2 < i ==> v[k1].0 != v[k2].0
            });
            let post_ok = ({
                &&& forall|k: int|
                    0 <= k < i + 1 ==> {
                        &&& crate::book::book_wf((#[trigger] v[k]).1)
                        &&& v[k].0.len() > 0
                        &&& crate::matching::book_seq_lt(v[k].1, seq + 1)
                    }
                &&& forall|k1: int, k2: int|
                    #![trigger v[k1].0, v[k2].0]
                    0 <= k1 < k2 < i + 1 ==> v[k1].0 != v[k2].0
            });
            if pre_ok && c {
                assert(crate::book::book_wf(v[i as int].1));
                assert(crate::matching::book_seq_lt(v[i as int].1, seq + 1));
                assert forall|k1: int, k2: int|
                    #![trigger v[k1].0, v[k2].0]
                    0 <= k1 < k2 < i + 1 implies v[k1].0 != v[k2].0 by {
                    if k2 == i {
                        assert(v[k1].0 != v[i as int].0);
                    }
                }
                assert(post_ok);
            }
            if !pre_ok {
                assert(!post_ok);
            }
            if pre_ok && !c {
                assert(!post_ok) by {
                    if post_ok {
                        assert(crate::book::book_wf(v[i as int].1));
                        assert(v[i as int].0.len() > 0);
                        assert(crate::matching::book_seq_lt(v[i as int].1, seq + 1));
                        assert(forall|k: int|
                            0 <= k < i ==> (#[trigger] v[k]).0 != v[i as int].0);
                    }
                }
            }
        }
        ok = ok && c;
        i = i + 1;
    }
    proof {
        if ok {
            assert(crate::engine::books_wf(v, seq as int));
        } else {
            assert(!crate::engine::books_wf(v, seq as int)) by {
                if crate::engine::books_wf(v, seq as int) {
                    assert(forall|k: int|
                        0 <= k < v.len() ==> {
                            &&& crate::book::book_wf((#[trigger] v[k]).1)
                            &&& v[k].0.len() > 0
                            &&& crate::matching::book_seq_lt(v[k].1, seq + 1)
                        });
                }
            }
        }
    }
    ok
}

} // verus!
