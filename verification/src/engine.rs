//! The engine core: the state aggregate that owns the global sequence
//! counter, the per-symbol books, the trade counter and the per-symbol trade
//! tapes, together with the submit protocol and the read views.
//!
//! A submit is a three-step protocol around the WAL append, which is I/O and
//! happens outside the library: `prepare_submit` validates and assigns the
//! next sequence number and builds the entry to persist; once the append
//! succeeded, `commit_submit` applies the entry to the book and extends the
//! trade tape; if the append failed, `abort_submit` releases the sequence
//! number, so accepted sequence numbers stay gap-free.

use vstd::prelude::*;

use crate::book::book_wf;
use crate::book::BookV;
use crate::book::Fill;
use crate::book::FillV;
use crate::book::Order;
use crate::book::OrderBook;
use crate::book::Side;
use crate::matching::add_spec;
use crate::matching::book_seq_lt;
use crate::wal::entry_valid;
use crate::wal::order_of_entry;
use crate::wal::side_tag;
use crate::wal::WalEntry;
use crate::wal::WalEntryV;

verus! {

broadcast use vstd::string::group_string_axioms;

/// Per-symbol trade tape capacity: the oldest trade is evicted when a tape
/// would exceed it.
pub const MAX_TRADES_PER_SYMBOL: usize = 10000;

/// Hard cap on how many trades one read may return.
pub const MAX_TRADES_LIMIT: usize = 1000;

/// An externally visible trade derived from one fill. `trade_id` is a second
/// monotonic counter, independent of `seq`, global across symbols.
#[derive(Debug)]
pub struct Trade {
    pub trade_id: u64,
    pub symbol: String,
    pub price: i64,
    pub qty: i64,
    pub maker_seq: u64,
    pub taker_seq: u64,
    pub taker_side: Side,
}

/// Mathematical model of a trade.
pub ghost struct TradeV {
    pub trade_id: int,
    pub symbol: Seq<char>,
    pub price: int,
    pub qty: int,
    pub maker_seq: int,
    pub taker_seq: int,
    pub taker_side: Side,
}

impl View for Trade {
    type V = TradeV;

    open spec fn view(&self) -> TradeV {
        TradeV {
            trade_id: self.trade_id as int,
            symbol: self.symbol@,
            price: self.price as int,
            qty: self.qty as int,
            maker_seq: self.maker_seq as int,
            taker_seq: self.taker_seq as int,
            taker_side: self.taker_side,
        }
    }
}

impl Clone for Trade {
    /// Clones preserve the trade exactly.
    fn clone(&self) -> (r: Self)
        ensures
            r == self,
    {
        Trade {
            trade_id: self.trade_id,
            symbol: self.symbol.clone(),
            price: self.price,
            qty: self.qty,
            maker_seq: self.maker_seq,
            taker_seq: self.taker_seq,
            taker_side: self.taker_side,
        }
    }
}

/// One symbol's book.
#[derive(Debug)]
pub struct SymbolBook {
    pub symbol: String,
    pub book: OrderBook,
}

/// One symbol's trade tape, most recent last.
#[derive(Debug)]
pub struct SymbolTape {
    pub symbol: String,
    pub trades: Vec<Trade>,
}

/// The engine state aggregate: the global order sequence counter, the
/// per-symbol books (created lazily, insertion order kept), the global trade
/// counter, and the per-symbol trade tapes.
#[derive(Debug)]
pub struct EngineState {
    pub seq: u64,
    pub books: Vec<SymbolBook>,
    pub next_trade_id: u64,
    pub trades: Vec<SymbolTape>,
}

/// Mathematical model of the engine state: symbol-keyed association
/// sequences in insertion order.
pub ghost struct EngineV {
    pub seq: int,
    pub next_trade_id: int,
    pub books: Seq<(Seq<char>, BookV)>,
    pub tapes: Seq<(Seq<char>, Seq<TradeV>)>,
}

impl View for EngineState {
    type V = EngineV;

    open spec fn view(&self) -> EngineV {
        EngineV {
            seq: self.seq as int,
            next_trade_id: self.next_trade_id as int,
            books: self.books@.map_values(|sb: SymbolBook| (sb.symbol@, sb.book@)),
            tapes: self.trades@.map_values(
                |st: SymbolTape| (st.symbol@, st.trades@.map_values(|t: Trade| t@)),
            ),
        }
    }
}

/// The first index keyed by `sym` in an association sequence, or -1 when the
/// key is absent.
pub open spec fn find_sym<T>(s: Seq<(Seq<char>, T)>, sym: Seq<char>) -> int
    decreases s.len(),
{
    if s.len() == 0 {
        -1
    } else if s[0].0 == sym {
        0
    } else {
        let r = find_sym(s.drop_first(), sym);
        if r < 0 {
            -1
        } else {
            r + 1
        }
    }
}

/// What `find_sym` finds: the first matching index, or -1 when no entry
/// matches.
pub proof fn lemma_find_sym_props<T>(s: Seq<(Seq<char>, T)>, sym: Seq<char>)
    ensures
        ({
            let r = find_sym(s, sym);
            &&& r >= 0 ==> 0 <= r < s.len() && s[r].0 == sym && (forall|j: int|
                0 <= j < r ==> (#[trigger] s[j]).0 != sym)
            &&& r < 0 ==> r == -1 && (forall|j: int| 0 <= j < s.len() ==> (#[trigger] s[j]).0 != sym)
        }),
    decreases s.len(),
{
    if s.len() == 0 {
    } else if s[0].0 == sym {
    } else {
        lemma_find_sym_props(s.drop_first(), sym);
        let d = s.drop_first();
        let rd = find_sym(d, sym);
        if rd >= 0 {
            assert(s[rd + 1] == d[rd]);
            assert forall|j: int| 0 <= j < rd + 1 implies (#[trigger] s[j]).0 != sym by {
                if j > 0 {
                    assert(d[j - 1] == s[j]);
                }
            }
        } else {
            assert forall|j: int| 0 <= j < s.len() implies (#[trigger] s[j]).0 != sym by {
                if j > 0 {
                    assert(d[j - 1] == s[j]);
                }
            }
        }
    }
}

/// A scan that saw no match through index `i` agrees with `find_sym`.
proof fn lemma_find_sym_at<T>(s: Seq<(Seq<char>, T)>, sym: Seq<char>, i: int)
    requires
        0 <= i <= s.len(),
        forall|j: int| 0 <= j < i ==> (#[trigger] s[j]).0 != sym,
        i < s.len() ==> s[i].0 == sym,
    ensures
        find_sym(s, sym) == if i < s.len() {
            i
        } else {
            -1int
        },
    decreases s.len(),
{
    if s.len() == 0 {
    } else if i == 0 {
        if s.len() > 0 && s[0].0 == sym {
        } else {
            lemma_find_sym_props(s, sym);
        }
    } else {
        assert(s[0].0 != sym);
        let d = s.drop_first();
        assert forall|j: int| 0 <= j < i - 1 implies (#[trigger] d[j]).0 != sym by {
            assert(d[j] == s[j + 1]);
        }
        if i < s.len() {
            assert(d[i - 1] == s[i]);
        }
        lemma_find_sym_at(d, sym, i - 1);
    }
}

/// Whether every book of the engine is well formed under the current
/// sequence counter: valid books keyed by distinct non-empty symbols, every
/// resting order's sequence number at most `seq`.
pub open spec fn books_wf(books: Seq<(Seq<char>, BookV)>, seq: int) -> bool {
    &&& forall|i: int|
        0 <= i < books.len() ==> {
            &&& book_wf((#[trigger] books[i]).1)
            &&& books[i].0.len() > 0
            &&& book_seq_lt(books[i].1, seq + 1)
        }
    &&& forall|i: int, j: int|
        #![trigger books[i].0, books[j].0]
        0 <= i < j < books.len() ==> books[i].0 != books[j].0
}

/// Whether one trade tape is well formed: within the capacity, trade
/// identifiers strictly ascending and no greater than the trade counter.
pub open spec fn tape_wf(t: Seq<TradeV>, next_trade_id: int) -> bool {
    &&& t.len() <= MAX_TRADES_PER_SYMBOL
    &&& forall|k: int| 0 <= k < t.len() ==> 1 <= (#[trigger] t[k]).trade_id <= next_trade_id
    &&& forall|i: int, j: int|
        #![trigger t[i].trade_id, t[j].trade_id]
        0 <= i < j < t.len() ==> t[i].trade_id < t[j].trade_id
}

/// Whether every tape of the engine is well formed, keyed by distinct
/// non-empty symbols.
pub open spec fn tapes_wf(tapes: Seq<(Seq<char>, Seq<TradeV>)>, next_trade_id: int) -> bool {
    &&& forall|i: int|
        0 <= i < tapes.len() ==> tape_wf((#[trigger] tapes[i]).1, next_trade_id) && tapes[i].0.len()
            > 0
    &&& forall|i: int, j: int|
        #![trigger tapes[i].0, tapes[j].0]
        0 <= i < j < tapes.len() ==> tapes[i].0 != tapes[j].0
}

/// Whether every resting order in every book arrived strictly before
/// sequence number `s`.
pub open spec fn books_seq_lt(books: Seq<(Seq<char>, BookV)>, s: int) -> bool {
    forall|i: int| 0 <= i < books.len() ==> book_seq_lt((#[trigger] books[i]).1, s)
}

impl EngineState {
    /// The engine state invariant.
    pub open spec fn wf(&self) -> bool {
        &&& books_wf(self@.books, self@.seq)
        &&& tapes_wf(self@.tapes, self@.next_trade_id)
    }

    /// Creates an empty engine: no orders accepted, no books, no trades.
    pub fn new() -> (r: Self)
        ensures
            r@.seq == 0,
            r@.next_trade_id == 0,
            r@.books == Seq::<(Seq<char>, BookV)>::empty(),
            r@.tapes == Seq::<(Seq<char>, Seq<TradeV>)>::empty(),
            r.wf(),
    {
        let r = EngineState { seq: 0, books: Vec::new(), next_trade_id: 0, trades: Vec::new() };
        proof {
            assert(r@.books =~= Seq::<(Seq<char>, BookV)>::empty());
            assert(r@.tapes =~= Seq::<(Seq<char>, Seq<TradeV>)>::empty());
        }
        r
    }

    /// Assigns the next order sequence number: increments the counter and
    /// returns it, leaving everything else untouched.
    pub fn next_seq(&mut self) -> (s: u64)
        requires
            old(self)@.seq < u64::MAX,
        ensures
            s as int == old(self)@.seq + 1,
            final(self)@ == (EngineV { seq: old(self)@.seq + 1, ..old(self)@ }),
    {
        self.seq = self.seq + 1;
        self.seq
    }

    /// Assigns the next trade identifier: increments the counter and returns
    /// it, leaving everything else untouched.
    pub fn next_trade_id(&mut self) -> (t: u64)
        requires
            old(self)@.next_trade_id < u64::MAX,
        ensures
            t as int == old(self)@.next_trade_id + 1,
            final(self)@ == (EngineV { next_trade_id: old(self)@.next_trade_id + 1, ..old(self)@ }),
    {
        self.next_trade_id = self.next_trade_id + 1;
        self.next_trade_id
    }
}

/// Why the engine refused a request: a validation failure (rejected before a
/// sequence number is assigned, no state change), or the durability boundary
/// failing (the WAL append did not complete, the request is rejected as
/// unavailable and the sequence number is released).
#[derive(Clone, Copy, PartialEq, Eq, Structural, Debug)]
pub enum EngineError {
    EmptySymbol,
    NonPositiveQty,
    NegativePrice,
    WalUnavailable,
}

/// Whether a submit request passes validation.
pub open spec fn request_valid(symbol: Seq<char>, price: int, qty: int) -> bool {
    symbol.len() > 0 && qty > 0 && price >= 0
}

/// The validation verdict of a submit request, in the order the checks run:
/// symbol first, then quantity, then price.
pub open spec fn request_error(symbol: Seq<char>, price: int, qty: int) -> EngineError {
    if symbol.len() == 0 {
        EngineError::EmptySymbol
    } else if qty <= 0 {
        EngineError::NonPositiveQty
    } else {
        EngineError::NegativePrice
    }
}

/// The WAL entry a submit writes once sequence number `seq` is assigned.
pub open spec fn entry_of_request(
    seq: int,
    symbol: Seq<char>,
    side: Side,
    price: int,
    qty: int,
    cid: Seq<char>,
) -> WalEntryV {
    WalEntryV { seq, symbol, side: side_tag(side), price, qty, cid }
}

impl EngineState {
    /// The first half of a submit: validates the request and, when it is
    /// valid, assigns the next sequence number and returns the WAL entry to
    /// persist; the books, tapes and trade counter are untouched either way.
    /// An invalid request is rejected with no state change at all. The caller
    /// must append the entry durably before calling `commit_submit`, or call
    /// `abort_submit` if the append failed.
    pub fn prepare_submit(
        &mut self,
        symbol: &String,
        side: Side,
        price: i64,
        qty: i64,
        client_order_id: &String,
    ) -> (r: Result<WalEntry, EngineError>)
        requires
            old(self)@.seq < u64::MAX,
        ensures
            old(self).wf() ==> final(self).wf(),
            match r {
                Ok(e) => {
                    &&& request_valid(symbol@, price as int, qty as int)
                    &&& final(self)@ == (EngineV { seq: old(self)@.seq + 1, ..old(self)@ })
                    &&& e@ == entry_of_request(
                        old(self)@.seq + 1,
                        symbol@,
                        side,
                        price as int,
                        qty as int,
                        client_order_id@,
                    )
                    &&& entry_valid(e@)
                    &&& crate::wal::entry_side(e@) == side
                    &&& old(self).wf() ==> books_seq_lt(final(self)@.books, final(self)@.seq)
                },
                Err(err) => {
                    &&& !request_valid(symbol@, price as int, qty as int)
                    &&& err == request_error(symbol@, price as int, qty as int)
                    &&& final(self)@ == old(self)@
                },
            },
    {
        if symbol.as_str().is_empty() {
            return Err(EngineError::EmptySymbol);
        }
        if qty <= 0 {
            return Err(EngineError::NonPositiveQty);
        }
        if price < 0 {
            return Err(EngineError::NegativePrice);
        }
        let seq = self.next_seq();
        let side_str = match side {
            Side::Buy => String::from_str("BUY"),
            Side::Sell => String::from_str("SELL"),
        };
        let entry = WalEntry {
            seq,
            symbol: symbol.clone(),
            side: side_str,
            price,
            qty,
            client_order_id: client_order_id.clone(),
        };
        proof {
            reveal_strlit("BUY");
            reveal_strlit("SELL");
            assert("BUY"@.len() == 3 && "SELL"@.len() == 4);
            assert(side_tag(Side::Buy) != side_tag(Side::Sell));
        }
        Ok(entry)
    }

    /// Releases the sequence number assigned by a `prepare_submit` whose WAL
    /// append failed: the counter steps back by one and nothing else changes,
    /// so accepted sequence numbers stay gap-free.
    pub fn abort_submit(&mut self)
        requires
            old(self)@.seq > 0,
        ensures
            final(self)@ == (EngineV { seq: old(self)@.seq - 1, ..old(self)@ }),
            old(self).wf() && books_seq_lt(old(self)@.books, old(self)@.seq) ==> final(self).wf(),
    {
        self.seq = self.seq - 1;
    }
}

/// The trade derived from one fill, as the original submit saw it: the fill's
/// price and quantity, the incoming order's side as taker side, and a fresh
/// trade identifier.
pub open spec fn trade_of_fill(symbol: Seq<char>, taker_side: Side, f: FillV, trade_id: int) -> TradeV {
    TradeV {
        trade_id,
        symbol,
        price: f.price,
        qty: f.qty,
        maker_seq: f.maker_seq,
        taker_seq: f.taker_seq,
        taker_side,
    }
}

/// Appends one trade to a tape, evicting the oldest entry when the tape is
/// at capacity.
pub open spec fn tape_push(t: Seq<TradeV>, tr: TradeV) -> Seq<TradeV> {
    if t.len() < MAX_TRADES_PER_SYMBOL {
        t.push(tr)
    } else {
        t.drop_first().push(tr)
    }
}

/// The tape after appending one trade per fill, in fill emission order, with
/// trade identifiers `tid0 + 1 ..= tid0 + fs.len()`.
pub open spec fn tape_append_fills(
    t: Seq<TradeV>,
    symbol: Seq<char>,
    taker_side: Side,
    fs: Seq<FillV>,
    tid0: int,
) -> Seq<TradeV>
    decreases fs.len(),
{
    if fs.len() == 0 {
        t
    } else {
        tape_append_fills(
            tape_push(t, trade_of_fill(symbol, taker_side, fs[0], tid0 + 1)),
            symbol,
            taker_side,
            fs.drop_first(),
            tid0 + 1,
        )
    }
}

/// The empty book a symbol starts with.
pub open spec fn empty_book() -> BookV {
    BookV { bids: Seq::<crate::book::LevelV>::empty(), asks: Seq::<crate::book::LevelV>::empty() }
}

/// The book currently kept for a symbol, or the empty book before the
/// symbol's first order.
pub open spec fn book_of(st: EngineV, sym: Seq<char>) -> BookV {
    let bi = find_sym(st.books, sym);
    if bi >= 0 {
        st.books[bi].1
    } else {
        empty_book()
    }
}

/// What applying one entry's order does to the books: the symbol's book
/// (created empty on first use) takes the order through `add_spec`.
pub open spec fn apply_entry_books(books: Seq<(Seq<char>, BookV)>, e: WalEntryV) -> Seq<
    (Seq<char>, BookV),
> {
    let bi = find_sym(books, e.symbol);
    let b = if bi >= 0 {
        books[bi].1
    } else {
        empty_book()
    };
    let r = add_spec(b, order_of_entry(e));
    if bi >= 0 {
        books.update(bi, (e.symbol, r.0))
    } else {
        books.push((e.symbol, r.0))
    }
}

/// What committing a persisted entry does to the engine: apply the order to
/// its symbol's book (created on first use), derive one trade per fill in
/// emission order with fresh ascending trade identifiers, and append them to
/// the symbol's tape (created on first trade), evicting the oldest beyond
/// capacity. The sequence counter is untouched: it was advanced when the
/// entry was prepared.
pub open spec fn commit_spec(st: EngineV, e: WalEntryV) -> (EngineV, Seq<FillV>) {
    let o = order_of_entry(e);
    let b = book_of(st, e.symbol);
    let r = add_spec(b, o);
    let books2 = apply_entry_books(st.books, e);
    let fs = r.1;
    let tapes2 = if fs.len() == 0 {
        st.tapes
    } else {
        let ti = find_sym(st.tapes, e.symbol);
        let t = if ti >= 0 {
            st.tapes[ti].1
        } else {
            Seq::<TradeV>::empty()
        };
        let t2 = tape_append_fills(t, e.symbol, crate::wal::entry_side(e), fs, st.next_trade_id);
        if ti >= 0 {
            st.tapes.update(ti, (e.symbol, t2))
        } else {
            st.tapes.push((e.symbol, t2))
        }
    };
    (
        EngineV {
            seq: st.seq,
            next_trade_id: st.next_trade_id + fs.len(),
            books: books2,
            tapes: tapes2,
        },
        fs,
    )
}

/// Pushing a trade with the next identifier keeps a tape well formed: the
/// length stays within capacity (evicting the oldest), identifiers stay
/// strictly ascending.
proof fn lemma_tape_push_wf(t: Seq<TradeV>, n: int, tr: TradeV)
    requires
        tape_wf(t, n),
        tr.trade_id == n + 1,
        n >= 0,
    ensures
        tape_wf(tape_push(t, tr), n + 1),
{
    let u = tape_push(t, tr);
    if t.len() < MAX_TRADES_PER_SYMBOL {
        assert forall|k: int| 0 <= k < u.len() implies 1 <= (#[trigger] u[k]).trade_id <= n
            + 1 by {
            if k < t.len() {
                assert(u[k] == t[k]);
            }
        }
        assert forall|i: int, j: int|
            #![trigger u[i].trade_id, u[j].trade_id]
            0 <= i < j < u.len() implies u[i].trade_id < u[j].trade_id by {
            if j < t.len() {
                assert(u[i] == t[i] && u[j] == t[j]);
            } else {
                assert(u[i] == t[i] && u[j] == tr);
            }
        }
    } else {
        let d = t.drop_first();
        assert forall|k: int| 0 <= k < u.len() implies 1 <= (#[trigger] u[k]).trade_id <= n
            + 1 by {
            if k < d.len() {
                assert(u[k] == t[k + 1]);
            }
        }
        assert forall|i: int, j: int|
            #![trigger u[i].trade_id, u[j].trade_id]
            0 <= i < j < u.len() implies u[i].trade_id < u[j].trade_id by {
            if j < d.len() {
                assert(u[i] == t[i + 1] && u[j] == t[j + 1]);
            } else {
                assert(u[i] == t[i + 1] && u[j] == tr);
            }
        }
    }
}

/// Appending the trades of a fill run keeps a tape well formed under the
/// advanced trade counter.
proof fn lemma_tape_append_fills_wf(
    t: Seq<TradeV>,
    symbol: Seq<char>,
    taker_side: Side,
    fs: Seq<FillV>,
    tid0: int,
)
    requires
        tape_wf(t, tid0),
        tid0 >= 0,
    ensures
        tape_wf(tape_append_fills(t, symbol, taker_side, fs, tid0), tid0 + fs.len()),
    decreases fs.len(),
{
    if fs.len() == 0 {
    } else {
        let tr = trade_of_fill(symbol, taker_side, fs[0], tid0 + 1);
        lemma_tape_push_wf(t, tid0, tr);
        lemma_tape_append_fills_wf(tape_push(t, tr), symbol, taker_side, fs.drop_first(), tid0 + 1);
    }
}

/// Appending one more fill's trade extends the fold by one push.
proof fn lemma_tape_append_fills_snoc(
    t: Seq<TradeV>,
    symbol: Seq<char>,
    taker_side: Side,
    fs: Seq<FillV>,
    tid0: int,
    k: int,
)
    requires
        0 <= k < fs.len(),
    ensures
        tape_append_fills(t, symbol, taker_side, fs.take(k + 1), tid0) == tape_push(
            tape_append_fills(t, symbol, taker_side, fs.take(k), tid0),
            trade_of_fill(symbol, taker_side, fs[k], tid0 + k + 1),
        ),
    decreases k,
{
    if k == 0 {
        let tr = trade_of_fill(symbol, taker_side, fs[0], tid0 + 1);
        assert(fs.take(0) =~= Seq::<FillV>::empty());
        let s1 = fs.take(1);
        assert(s1.len() == 1 && s1[0] == fs[0]);
        assert(s1.drop_first() =~= Seq::<FillV>::empty());
        assert(tape_append_fills(t, symbol, taker_side, Seq::<FillV>::empty(), tid0) == t);
        assert(tape_append_fills(tape_push(t, tr), symbol, taker_side, Seq::<FillV>::empty(), tid0
            + 1) == tape_push(t, tr));
        assert(tape_append_fills(t, symbol, taker_side, s1, tid0) == tape_append_fills(
            tape_push(t, tr),
            symbol,
            taker_side,
            s1.drop_first(),
            tid0 + 1,
        ));
    } else {
        let t2 = tape_push(t, trade_of_fill(symbol, taker_side, fs[0], tid0 + 1));
        let d = fs.drop_first();
        lemma_tape_append_fills_snoc(t2, symbol, taker_side, d, tid0 + 1, k - 1);
        assert(fs.take(k + 1)[0] == fs[0]);
        assert(fs.take(k)[0] == fs[0]);
        assert(fs.take(k + 1).drop_first() =~= d.take(k));
        assert(fs.take(k).drop_first() =~= d.take(k - 1));
        assert(d[k - 1] == fs[k]);
        assert(tape_append_fills(t, symbol, taker_side, fs.take(k + 1), tid0) == tape_append_fills(
            t2,
            symbol,
            taker_side,
            d.take(k),
            tid0 + 1,
        ));
        assert(tape_append_fills(t, symbol, taker_side, fs.take(k), tid0) == tape_append_fills(
            t2,
            symbol,
            taker_side,
            d.take(k - 1),
            tid0 + 1,
        ));
    }
}

/// Finds the index of a symbol's book by scanning in insertion order.
fn find_book(books: &Vec<SymbolBook>, symbol: &String) -> (r: Option<usize>)
    ensures
        ({
            let v = books@.map_values(|sb: SymbolBook| (sb.symbol@, sb.book@));
            match r {
                Some(i) => 0 <= i < v.len() && find_sym(v, symbol@) == i as int,
                None => find_sym(v, symbol@) == -1,
            }
        }),
{
    let ghost v = books@.map_values(|sb: SymbolBook| (sb.symbol@, sb.book@));
    let mut i: usize = 0;
    while i < books.len()
        invariant
            0 <= i <= books@.len(),
            v == books@.map_values(|sb: SymbolBook| (sb.symbol@, sb.book@)),
            forall|j: int| 0 <= j < i ==> (#[trigger] v[j]).0 != symbol@,
        decreases books@.len() - i,
    {
        if books[i].symbol == *symbol {
            proof {
                assert(v[i as int].0 == symbol@);
                lemma_find_sym_at(v, symbol@, i as int);
            }
            return Some(i);
        }
        proof {
            assert(v[i as int].0 == books@[i as int].symbol@);
        }
        i = i + 1;
    }
    proof {
        lemma_find_sym_at(v, symbol@, v.len() as int);
    }
    None
}

/// Finds the index of a symbol's trade tape by scanning in insertion order.
fn find_tape(tapes: &Vec<SymbolTape>, symbol: &String) -> (r: Option<usize>)
    ensures
        ({
            let v = tapes@.map_values(
                |st: SymbolTape| (st.symbol@, st.trades@.map_values(|t: Trade| t@)),
            );
            match r {
                Some(i) => 0 <= i < v.len() && find_sym(v, symbol@) == i as int,
                None => find_sym(v, symbol@) == -1,
            }
        }),
{
    let ghost v = tapes@.map_values(
        |st: SymbolTape| (st.symbol@, st.trades@.map_values(|t: Trade| t@)),
    );
    let mut i: usize = 0;
    while i < tapes.len()
        invariant
            0 <= i <= tapes@.len(),
            v == tapes@.map_values(
                |st: SymbolTape| (st.symbol@, st.trades@.map_values(|t: Trade| t@)),
            ),
            forall|j: int| 0 <= j < i ==> (#[trigger] v[j]).0 != symbol@,
        decreases tapes@.len() - i,
    {
        if tapes[i].symbol == *symbol {
            proof {
                assert(v[i as int].0 == symbol@);
                lemma_find_sym_at(v, symbol@, i as int);
            }
            return Some(i);
        }
        proof {
            assert(v[i as int].0 == tapes@[i as int].symbol@);
        }
        i = i + 1;
    }
    proof {
        lemma_find_sym_at(v, symbol@, v.len() as int);
    }
    None
}

impl EngineState {
    /// The second half of a submit, called once the entry is durable: applies
    /// the order to its symbol's book (created on first use), returns the
    /// fills in emission order, and appends one trade per fill to the
    /// symbol's tape with fresh ascending trade identifiers, evicting the
    /// oldest beyond capacity. Exactly `commit_spec`.
    pub fn commit_submit(&mut self, entry: &WalEntry) -> (fills: Vec<Fill>)
        requires
            old(self).wf(),
            entry_valid(entry@),
            entry@.seq == old(self)@.seq,
            books_seq_lt(old(self)@.books, old(self)@.seq),
            old(self)@.next_trade_id + crate::matching::book_orders(
                book_of(old(self)@, entry@.symbol),
            ) + 1 <= u64::MAX,
        ensures
            final(self).wf(),
            final(self)@ == commit_spec(old(self)@, entry@).0,
            fills@.map_values(|f: Fill| f@) == commit_spec(old(self)@, entry@).1,
            books_seq_lt(final(self)@.books, final(self)@.seq + 1),
    {
        let ghost st0 = self@;
        let ghost ev = entry@;
        let ghost b = book_of(st0, ev.symbol);
        let ghost o = order_of_entry(ev);
        proof {
            lemma_find_sym_props(st0.books, ev.symbol);
            crate::matching::lemma_add_spec(b, o);
            crate::matching::lemma_add_fills_len(b, o);
        }
        let bi = find_book(&self.books, &entry.symbol);
        let mut sb = match bi {
            Some(i) => self.books.remove(i),
            None => SymbolBook { symbol: entry.symbol.clone(), book: OrderBook::new() },
        };
        proof {
            assert(sb.book@ == b);
        }
        let buy = String::from_str("BUY");
        let side = if entry.side == buy {
            Side::Buy
        } else {
            Side::Sell
        };
        proof {
            assert(side == crate::wal::entry_side(ev));
        }
        let order = Order {
            seq: entry.seq,
            side,
            price: entry.price,
            qty: entry.qty,
            client_order_id: entry.client_order_id.clone(),
        };
        proof {
            assert(order@ == o);
        }
        let fills = sb.book.add(order);
        let ghost fsv = add_spec(b, o).1;
        match bi {
            Some(i) => self.books.insert(i, sb),
            None => self.books.push(sb),
        };
        proof {
            let bi_s = find_sym(st0.books, ev.symbol);
            if bi_s >= 0 {
                assert(self@.books =~= st0.books.update(bi_s, (ev.symbol, add_spec(b, o).0)));
            } else {
                assert(self@.books =~= st0.books.push((ev.symbol, add_spec(b, o).0)));
            }
        }
        let ghost books2 = self@.books;
        if fills.len() > 0 {
            proof {
                lemma_find_sym_props(st0.tapes, ev.symbol);
            }
            let ti = find_tape(&self.trades, &entry.symbol);
            let mut tape = match ti {
                Some(i) => self.trades.remove(i),
                None => SymbolTape { symbol: entry.symbol.clone(), trades: Vec::new() },
            };
            let ghost t0 = tape.trades@.map_values(|t: Trade| t@);
            let ghost tid0 = st0.next_trade_id;
            let ghost mid = self@;
            proof {
                let ti_s = find_sym(st0.tapes, ev.symbol);
                if ti_s >= 0 {
                    assert(mid.tapes =~= st0.tapes.remove(ti_s));
                    assert(t0 == st0.tapes[ti_s].1);
                } else {
                    assert(t0 =~= Seq::<TradeV>::empty());
                    assert(mid.tapes == st0.tapes);
                }
            }
            let n = fills.len();
            let mut k: usize = 0;
            while k < n
                invariant
                    0 <= k <= n,
                    n == fsv.len(),
                    ev == entry@,
                    side == crate::wal::entry_side(ev),
                    fills@.map_values(|f: Fill| f@) == fsv,
                    fills@.len() == n,
                    tid0 + n <= u64::MAX,
                    tid0 >= 0,
                    self@ == (EngineV { next_trade_id: tid0 + k, ..mid }),
                    mid.next_trade_id == tid0,
                    tape.symbol@ == ev.symbol,
                    tape.trades@.map_values(|t: Trade| t@) == tape_append_fills(
                        t0,
                        ev.symbol,
                        side,
                        fsv.take(k as int),
                        tid0,
                    ),
                decreases n - k,
            {
                let tid = self.next_trade_id();
                let f = fills[k];
                let trade = Trade {
                    trade_id: tid,
                    symbol: entry.symbol.clone(),
                    price: f.price,
                    qty: f.qty,
                    maker_seq: f.maker_seq,
                    taker_seq: f.taker_seq,
                    taker_side: side,
                };
                let ghost pre_tape = tape.trades@.map_values(|t: Trade| t@);
                let ghost trv = trade_of_fill(ev.symbol, side, fsv[k as int], tid0 + k + 1);
                proof {
                    assert(f@ == fsv[k as int]);
                    assert(trade@ == trv);
                }
                tape.trades.push(trade);
                if tape.trades.len() > MAX_TRADES_PER_SYMBOL {
                    tape.trades.remove(0);
                }
                proof {
                    if pre_tape.len() < MAX_TRADES_PER_SYMBOL {
                        assert(tape.trades@.map_values(|t: Trade| t@) =~= pre_tape.push(trv));
                    } else {
                        assert(tape.trades@.map_values(|t: Trade| t@) =~= pre_tape.drop_first().push(
                            trv,
                        ));
                    }
                    lemma_tape_append_fills_snoc(t0, ev.symbol, side, fsv, tid0, k as int);
                }
                k = k + 1;
            }
            proof {
                assert(fsv.take(n as int) =~= fsv);
                assert(self.trades@.len() == mid.tapes.len());
                let ti_s = find_sym(st0.tapes, ev.symbol);
                if ti_s >= 0 {
                    assert(mid.tapes.len() == st0.tapes.len() - 1);
                }
            }
            let ghost t2 = tape_append_fills(t0, ev.symbol, crate::wal::entry_side(ev), fsv, tid0);
            proof {
                assert(tape.trades@.map_values(|t: Trade| t@) == t2);
                assert(tape.symbol@ == ev.symbol);
            }
            match ti {
                Some(i) => self.trades.insert(i, tape),
                None => self.trades.push(tape),
            };
            proof {
                let ti_s = find_sym(st0.tapes, ev.symbol);
                if ti_s >= 0 {
                    assert(self@.tapes =~= mid.tapes.insert(ti_s, (ev.symbol, t2)));
                    assert(st0.tapes.remove(ti_s).insert(ti_s, (ev.symbol, t2)) =~= st0.tapes.update(
                        ti_s,
                        (ev.symbol, t2),
                    ));
                    assert(self@.tapes == st0.tapes.update(ti_s, (ev.symbol, t2)));
                } else {
                    assert(self@.tapes =~= st0.tapes.push((ev.symbol, t2)));
                }
            }
        } else {
            proof {
                assert(self@.tapes == st0.tapes);
            }
        }
        proof {
            assert(self@ == commit_spec(st0, ev).0);
            lemma_commit_wf(st0, ev);
        }
        fills
    }
}

/// Committing a valid entry with the freshly assigned sequence number keeps
/// the engine well formed.
proof fn lemma_commit_wf(st: EngineV, e: WalEntryV)
    requires
        books_wf(st.books, st.seq),
        tapes_wf(st.tapes, st.next_trade_id),
        entry_valid(e),
        e.seq == st.seq,
        books_seq_lt(st.books, st.seq),
        st.next_trade_id >= 0,
    ensures
        ({
            let st2 = commit_spec(st, e).0;
            &&& books_wf(st2.books, st2.seq)
            &&& tapes_wf(st2.tapes, st2.next_trade_id)
            &&& books_seq_lt(st2.books, st2.seq + 1)
        }),
{
    let o = order_of_entry(e);
    let b = book_of(st, e.symbol);
    let bi = find_sym(st.books, e.symbol);
    lemma_find_sym_props(st.books, e.symbol);
    crate::matching::lemma_add_spec(b, o);
    let r = add_spec(b, o);
    let st2 = commit_spec(st, e).0;
    // books: the touched book is well formed by the add, the rest unchanged
    assert forall|i: int| 0 <= i < st2.books.len() implies {
        &&& book_wf((#[trigger] st2.books[i]).1)
        &&& st2.books[i].0.len() > 0
        &&& book_seq_lt(st2.books[i].1, st2.seq + 1)
        &&& book_seq_lt(st2.books[i].1, st2.seq + 2)
    } by {
        if bi >= 0 {
            if i != bi {
                assert(st2.books[i] == st.books[i]);
            }
        } else {
            if i < st.books.len() {
                assert(st2.books[i] == st.books[i]);
            }
        }
        assert(book_seq_lt(st2.books[i].1, e.seq + 1));
    }
    assert forall|i: int, j: int|
        #![trigger st2.books[i].0, st2.books[j].0]
        0 <= i < j < st2.books.len() implies st2.books[i].0 != st2.books[j].0 by {
        if bi >= 0 {
            assert(st2.books[i].0 == st.books[i].0);
            assert(st2.books[j].0 == st.books[j].0);
        } else {
            if j < st.books.len() {
                assert(st2.books[i].0 == st.books[i].0);
                assert(st2.books[j].0 == st.books[j].0);
            } else {
                assert(st2.books[i].0 == st.books[i].0);
                assert(st2.books[j].0 == e.symbol);
            }
        }
    }
    // tapes: the touched tape is well formed by the append, the rest keep
    // their bound under the advanced trade counter
    let fs = r.1;
    let tid2 = st.next_trade_id + fs.len();
    if fs.len() == 0 {
        assert forall|i: int| 0 <= i < st2.tapes.len() implies tape_wf(
            (#[trigger] st2.tapes[i]).1,
            tid2,
        ) && st2.tapes[i].0.len() > 0 by {
            assert(st2.tapes[i] == st.tapes[i]);
        }
    } else {
        let ti = find_sym(st.tapes, e.symbol);
        lemma_find_sym_props(st.tapes, e.symbol);
        let t0 = if ti >= 0 {
            st.tapes[ti].1
        } else {
            Seq::<TradeV>::empty()
        };
        assert(tape_wf(t0, st.next_trade_id));
        lemma_tape_append_fills_wf(
            t0,
            e.symbol,
            crate::wal::entry_side(e),
            fs,
            st.next_trade_id,
        );
        assert forall|i: int| 0 <= i < st2.tapes.len() implies tape_wf(
            (#[trigger] st2.tapes[i]).1,
            tid2,
        ) && st2.tapes[i].0.len() > 0 by {
            if ti >= 0 {
                if i != ti {
                    assert(st2.tapes[i] == st.tapes[i]);
                }
            } else {
                if i < st.tapes.len() {
                    assert(st2.tapes[i] == st.tapes[i]);
                }
            }
        }
        assert forall|i: int, j: int|
            #![trigger st2.tapes[i].0, st2.tapes[j].0]
            0 <= i < j < st2.tapes.len() implies st2.tapes[i].0 != st2.tapes[j].0 by {
            if ti >= 0 {
                assert(st2.tapes[i].0 == st.tapes[i].0);
                assert(st2.tapes[j].0 == st.tapes[j].0);
            } else {
                if j < st.tapes.len() {
                    assert(st2.tapes[i].0 == st.tapes[i].0);
                    assert(st2.tapes[j].0 == st.tapes[j].0);
                } else {
                    assert(st2.tapes[i].0 == st.tapes[i].0);
                    assert(st2.tapes[j].0 == e.symbol);
                }
            }
        }
    }
}

/// The number of depth levels actually served: non-positive requests default
/// to 10, and no request gets more than 100.
pub open spec fn effective_levels(levels: int) -> int {
    if levels <= 0 {
        10
    } else if levels > 100 {
        100
    } else {
        levels
    }
}

/// The number of trades one read may return: non-positive requests default to
/// 50, and no request gets more than the hard cap.
pub open spec fn effective_limit(limit: int) -> int {
    if limit <= 0 {
        50
    } else if limit > MAX_TRADES_LIMIT {
        MAX_TRADES_LIMIT as int
    } else {
        limit
    }
}

/// The first `limit` trades of a tape (scanned oldest first, so in ascending
/// trade identifier order) whose identifier exceeds `after`.
pub open spec fn select_trades(t: Seq<TradeV>, after: int, limit: int) -> Seq<TradeV>
    decreases t.len(),
{
    if t.len() == 0 || limit <= 0 {
        Seq::<TradeV>::empty()
    } else if t[0].trade_id > after {
        seq![t[0]] + select_trades(t.drop_first(), after, limit - 1)
    } else {
        select_trades(t.drop_first(), after, limit)
    }
}

/// The tape kept for a symbol, or the empty tape.
pub open spec fn tape_of(st: EngineV, sym: Seq<char>) -> Seq<TradeV> {
    let ti = find_sym(st.tapes, sym);
    if ti >= 0 {
        st.tapes[ti].1
    } else {
        Seq::<TradeV>::empty()
    }
}

impl EngineState {
    /// The top of book of a symbol: best bid and ask price with their
    /// aggregated quantities, all zeros when the symbol has no book or its
    /// book is empty on that side.
    pub fn get_top_of_book(&self, symbol: &String) -> (r: (i64, i64, i64, i64))
        requires
            self.wf(),
        ensures
            ({
                let t = crate::book::top_of_book_spec(book_of(self@, symbol@));
                &&& r.0 as int == t.0
                &&& r.1 as int == t.1
                &&& r.2 as int == t.2
                &&& r.3 as int == t.3
            }),
    {
        proof {
            lemma_find_sym_props(self@.books, symbol@);
        }
        match find_book(&self.books, symbol) {
            Some(i) => {
                proof {
                    assert(self@.books[i as int] == (
                        self.books@[i as int].symbol@,
                        self.books@[i as int].book@,
                    ));
                }
                self.books[i].book.top_of_book()
            },
            None => (0, 0, 0, 0),
        }
    }

    /// The depth view of a symbol: up to the effective number of best-first
    /// aggregated `(price, qty)` entries per side, empty when the symbol has
    /// no book. Non-positive level counts default to 10; 100 is the cap.
    pub fn get_book_depth(&self, symbol: &String, levels: i64) -> (r: (
        Vec<crate::book::PriceLevel>,
        Vec<crate::book::PriceLevel>,
    ))
        requires
            self.wf(),
        ensures
            ({
                let d = crate::book::depth_spec(
                    book_of(self@, symbol@),
                    effective_levels(levels as int),
                );
                &&& r.0@.map_values(
                    |p: crate::book::PriceLevel| (p.price as int, p.qty as int),
                ) == d.0
                &&& r.1@.map_values(
                    |p: crate::book::PriceLevel| (p.price as int, p.qty as int),
                ) == d.1
            }),
    {
        let n: usize = if levels <= 0 {
            10
        } else if levels > 100 {
            100
        } else {
            levels as usize
        };
        proof {
            lemma_find_sym_props(self@.books, symbol@);
        }
        match find_book(&self.books, symbol) {
            Some(i) => {
                proof {
                    assert(self@.books[i as int] == (
                        self.books@[i as int].symbol@,
                        self.books@[i as int].book@,
                    ));
                }
                self.books[i].book.depth(n)
            },
            None => {
                let r: (Vec<crate::book::PriceLevel>, Vec<crate::book::PriceLevel>) = (
                    Vec::new(),
                    Vec::new(),
                );
                proof {
                    let d = crate::book::depth_spec(empty_book(), n as int);
                    assert(empty_book().bids.reverse() =~= Seq::<crate::book::LevelV>::empty());
                    assert(d.0 =~= Seq::<(int, int)>::empty());
                    assert(d.1 =~= Seq::<(int, int)>::empty());
                    assert(r.0@.map_values(
                        |p: crate::book::PriceLevel| (p.price as int, p.qty as int),
                    ) =~= Seq::<(int, int)>::empty());
                    assert(r.1@.map_values(
                        |p: crate::book::PriceLevel| (p.price as int, p.qty as int),
                    ) =~= Seq::<(int, int)>::empty());
                }
                r
            },
        }
    }

    /// A pull-based cursor over a symbol's recent trades: scans the tape in
    /// ascending trade identifier order and returns the first trades beyond
    /// `after_trade_id`, up to the effective limit, together with the
    /// identifier of the last trade returned (or `after_trade_id` when none
    /// matched). Non-positive limits default to 50; 1000 is the cap. A reader
    /// that lags by more than the tape capacity misses the evicted trades.
    pub fn get_recent_trades(&self, symbol: &String, after_trade_id: u64, limit: i64) -> (r: (
        Vec<Trade>,
        u64,
    ))
        requires
            self.wf(),
        ensures
            ({
                let sel = select_trades(
                    tape_of(self@, symbol@),
                    after_trade_id as int,
                    effective_limit(limit as int),
                );
                &&& r.0@.map_values(|t: Trade| t@) == sel
                &&& r.1 as int == if sel.len() == 0 {
                    after_trade_id as int
                } else {
                    sel.last().trade_id
                }
            }),
    {
        let n: usize = if limit <= 0 {
            50
        } else if limit > 1000 {
            1000
        } else {
            limit as usize
        };
        proof {
            lemma_find_sym_props(self@.tapes, symbol@);
        }
        let ghost tp = tape_of(self@, symbol@);
        let mut out: Vec<Trade> = Vec::new();
        let mut last: u64 = after_trade_id;
        match find_tape(&self.trades, symbol) {
            Some(ti) => {
                proof {
                    assert(self@.tapes[ti as int] == (
                        self.trades@[ti as int].symbol@,
                        self.trades@[ti as int].trades@.map_values(|t: Trade| t@),
                    ));
                    assert(out@.map_values(|t: Trade| t@) =~= Seq::<TradeV>::empty());
                }
                let tape = &self.trades[ti].trades;
                let len = tape.len();
                proof {
                    assert(tp.skip(0) =~= tp);
                    assert(Seq::<TradeV>::empty() + select_trades(
                        tp,
                        after_trade_id as int,
                        n as int,
                    ) =~= select_trades(tp, after_trade_id as int, n as int));
                }
                let mut i: usize = 0;
                while i < len && out.len() < n
                    invariant
                        0 <= i <= len,
                        len == tape@.len(),
                        tape@.map_values(|t: Trade| t@) == tp,
                        out@.len() <= n,
                        select_trades(tp, after_trade_id as int, n as int) == out@.map_values(
                            |t: Trade| t@,
                        ) + select_trades(
                            tp.skip(i as int),
                            after_trade_id as int,
                            n - out@.len(),
                        ),
                        last as int == if out@.len() == 0 {
                            after_trade_id as int
                        } else {
                            out@.map_values(|t: Trade| t@).last().trade_id
                        },
                    decreases len - i,
                {
                    let ghost pre_out = out@.map_values(|t: Trade| t@);
                    proof {
                        assert(tp.skip(i as int)[0] == tp[i as int]);
                        assert(tp[i as int] == tape@[i as int]@);
                        assert(tp.skip(i as int).drop_first() =~= tp.skip(i + 1));
                    }
                    if tape[i].trade_id > after_trade_id {
                        let tr = tape[i].clone();
                        last = tr.trade_id;
                        out.push(tr);
                        proof {
                            assert(out@.map_values(|t: Trade| t@) =~= pre_out.push(tp[i as int]));
                            assert(pre_out.push(tp[i as int]) =~= pre_out + seq![tp[i as int]]);
                            assert(pre_out + (seq![tp[i as int]] + select_trades(
                                tp.skip(i + 1),
                                after_trade_id as int,
                                n - out@.len(),
                            )) =~= (pre_out + seq![tp[i as int]]) + select_trades(
                                tp.skip(i + 1),
                                after_trade_id as int,
                                n - out@.len(),
                            ));
                        }
                    }
                    i = i + 1;
                }
                proof {
                    if i < len {
                        assert(out@.len() == n);
                        assert(select_trades(
                            tp.skip(i as int),
                            after_trade_id as int,
                            n - out@.len(),
                        ) =~= Seq::<TradeV>::empty());
                    } else {
                        assert(tp.skip(i as int) =~= Seq::<TradeV>::empty());
                        assert(select_trades(
                            tp.skip(i as int),
                            after_trade_id as int,
                            n - out@.len(),
                        ) =~= Seq::<TradeV>::empty());
                    }
                    assert(out@.map_values(|t: Trade| t@) + Seq::<TradeV>::empty()
                        =~= out@.map_values(|t: Trade| t@));
                }
                (out, last)
            },
            None => {
                proof {
                    assert(tp =~= Seq::<TradeV>::empty());
                    assert(out@.map_values(|t: Trade| t@) =~= Seq::<TradeV>::empty());
                }
                (out, last)
            },
        }
    }
}

/// One submit request, as validated at the boundary.
pub ghost struct SubmitV {
    pub symbol: Seq<char>,
    pub side: Side,
    pub price: int,
    pub qty: int,
    pub cid: Seq<char>,
}

/// The WAL entry a submit writes: the request under the next sequence
/// number.
pub open spec fn submit_entry(st: EngineV, s: SubmitV) -> WalEntryV {
    entry_of_request(st.seq + 1, s.symbol, s.side, s.price, s.qty, s.cid)
}

/// One whole accepted submit: assign the next sequence number, persist the
/// entry, commit it.
pub open spec fn submit_step(st: EngineV, s: SubmitV) -> EngineV {
    commit_spec(EngineV { seq: st.seq + 1, ..st }, submit_entry(st, s)).0
}

/// The engine after a run of accepted submits.
pub open spec fn run_submits(st: EngineV, reqs: Seq<SubmitV>) -> EngineV
    decreases reqs.len(),
{
    if reqs.len() == 0 {
        st
    } else {
        run_submits(submit_step(st, reqs[0]), reqs.drop_first())
    }
}

/// The WAL a run of accepted submits writes, in append order.
pub open spec fn run_entries(st: EngineV, reqs: Seq<SubmitV>) -> Seq<WalEntryV>
    decreases reqs.len(),
{
    if reqs.len() == 0 {
        Seq::<WalEntryV>::empty()
    } else {
        seq![submit_entry(st, reqs[0])] + run_entries(submit_step(st, reqs[0]), reqs.drop_first())
    }
}

/// Monotonic gap-free sequence numbers: a run of `n` accepted submits from
/// sequence counter `s0` is acknowledged with exactly the sequence numbers
/// `s0 + 1, ..., s0 + n` — no gaps, no repeats — and leaves the counter at
/// `s0 + n`. From an empty engine that is exactly `1, ..., n`.
pub proof fn lemma_seq_monotonic(st: EngineV, reqs: Seq<SubmitV>)
    ensures
        run_submits(st, reqs).seq == st.seq + reqs.len(),
        run_entries(st, reqs).len() == reqs.len(),
        forall|k: int|
            0 <= k < reqs.len() ==> (#[trigger] run_entries(st, reqs)[k]).seq == st.seq + k + 1,
    decreases reqs.len(),
{
    if reqs.len() == 0 {
    } else {
        let st1 = submit_step(st, reqs[0]);
        assert(st1.seq == st.seq + 1);
        lemma_seq_monotonic(st1, reqs.drop_first());
        let es = run_entries(st, reqs);
        let tail = run_entries(st1, reqs.drop_first());
        assert forall|k: int| 0 <= k < reqs.len() implies (#[trigger] es[k]).seq == st.seq + k
            + 1 by {
            if k > 0 {
                assert(es[k] == tail[k - 1]);
            }
        }
    }
}

/// Trade tape cap: a tape within capacity never exceeds it — appending to a
/// full tape evicts the oldest trade, otherwise it appends plainly.
pub proof fn lemma_tape_cap(t: Seq<TradeV>, tr: TradeV)
    requires
        t.len() <= MAX_TRADES_PER_SYMBOL,
    ensures
        tape_push(t, tr).len() <= MAX_TRADES_PER_SYMBOL,
        tape_push(t, tr).last() == tr,
        t.len() < MAX_TRADES_PER_SYMBOL ==> tape_push(t, tr) == t.push(tr),
        t.len() == MAX_TRADES_PER_SYMBOL ==> tape_push(t, tr) == t.drop_first().push(tr),
{
}

/// The fills applying one entry emits.
pub open spec fn apply_entry_fills(books: Seq<(Seq<char>, BookV)>, e: WalEntryV) -> Seq<FillV> {
    let bi = find_sym(books, e.symbol);
    let b = if bi >= 0 {
        books[bi].1
    } else {
        empty_book()
    };
    add_spec(b, order_of_entry(e)).1
}

/// The books invariant relative to a bound on resting sequence numbers.
pub open spec fn books_wf_below(books: Seq<(Seq<char>, BookV)>, s: int) -> bool {
    &&& forall|i: int|
        0 <= i < books.len() ==> {
            &&& book_wf((#[trigger] books[i]).1)
            &&& books[i].0.len() > 0
            &&& book_seq_lt(books[i].1, s)
        }
    &&& forall|i: int, j: int|
        #![trigger books[i].0, books[j].0]
        0 <= i < j < books.len() ==> books[i].0 != books[j].0
}

/// Applying an entry that arrived after everything resting keeps the books
/// well formed, now bounded by the entry's own sequence number.
pub proof fn lemma_apply_entry_books_wf(books: Seq<(Seq<char>, BookV)>, e: WalEntryV)
    requires
        books_wf_below(books, e.seq),
        e.symbol.len() > 0,
    ensures
        books_wf_below(apply_entry_books(books, e), e.seq + 1),
{
    let o = order_of_entry(e);
    let bi = find_sym(books, e.symbol);
    lemma_find_sym_props(books, e.symbol);
    let b = if bi >= 0 {
        books[bi].1
    } else {
        empty_book()
    };
    crate::matching::lemma_add_spec(b, o);
    let u = apply_entry_books(books, e);
    assert forall|i: int| 0 <= i < u.len() implies {
        &&& book_wf((#[trigger] u[i]).1)
        &&& u[i].0.len() > 0
        &&& book_seq_lt(u[i].1, e.seq + 1)
    } by {
        if bi >= 0 {
            if i != bi {
                assert(u[i] == books[i]);
            }
        } else {
            if i < books.len() {
                assert(u[i] == books[i]);
            }
        }
    }
    assert forall|i: int, j: int|
        #![trigger u[i].0, u[j].0]
        0 <= i < j < u.len() implies u[i].0 != u[j].0 by {
        if bi >= 0 {
            assert(u[i].0 == books[i].0);
            assert(u[j].0 == books[j].0);
        } else {
            if j < books.len() {
                assert(u[i].0 == books[i].0);
                assert(u[j].0 == books[j].0);
            } else {
                assert(u[i].0 == books[i].0);
                assert(u[j].0 == e.symbol);
            }
        }
    }
}

/// Applies one persisted entry's order to the books, creating the symbol's
/// book on first use: the book-applying step shared by a commit and by one
/// replay step. Returns the fills the order produced.
pub(crate) fn apply_entry_exec(books: &mut Vec<SymbolBook>, entry: &WalEntry) -> (fills: Vec<
    Fill,
>)
    requires
        books_wf_below(
            old(books)@.map_values(|sb: SymbolBook| (sb.symbol@, sb.book@)),
            entry@.seq,
        ),
        entry@.symbol.len() > 0,
        entry@.side == side_tag(Side::Buy) || entry@.side == side_tag(Side::Sell),
        0 <= entry@.seq <= u64::MAX,
    ensures
        ({
            let v0 = old(books)@.map_values(|sb: SymbolBook| (sb.symbol@, sb.book@));
            let v1 = final(books)@.map_values(|sb: SymbolBook| (sb.symbol@, sb.book@));
            &&& v1 == apply_entry_books(v0, entry@)
            &&& fills@.map_values(|f: Fill| f@) == apply_entry_fills(v0, entry@)
            &&& books_wf_below(v1, entry@.seq + 1)
        }),
{
    let ghost v0 = books@.map_values(|sb: SymbolBook| (sb.symbol@, sb.book@));
    let ghost ev = entry@;
    let ghost o = order_of_entry(ev);
    proof {
        lemma_find_sym_props(v0, ev.symbol);
        lemma_apply_entry_books_wf(v0, ev);
    }
    let bi = find_book(books, &entry.symbol);
    let mut sb = match bi {
        Some(i) => books.remove(i),
        None => SymbolBook { symbol: entry.symbol.clone(), book: OrderBook::new() },
    };
    let ghost b = if find_sym(v0, ev.symbol) >= 0 {
        v0[find_sym(v0, ev.symbol)].1
    } else {
        empty_book()
    };
    proof {
        assert(sb.book@ == b);
    }
    let buy = String::from_str("BUY");
    let side = if entry.side == buy {
        Side::Buy
    } else {
        Side::Sell
    };
    proof {
        assert(side == crate::wal::entry_side(ev));
    }
    let order = Order {
        seq: entry.seq,
        side,
        price: entry.price,
        qty: entry.qty,
        client_order_id: entry.client_order_id.clone(),
    };
    proof {
        assert(order@ == o);
    }
    let fills = sb.book.add(order);
    match bi {
        Some(i) => books.insert(i, sb),
        None => books.push(sb),
    };
    proof {
        let bi_s = find_sym(v0, ev.symbol);
        if bi_s >= 0 {
            assert(books@.map_values(|sb: SymbolBook| (sb.symbol@, sb.book@)) =~= v0.update(
                bi_s,
                (ev.symbol, add_spec(b, o).0),
            ));
        } else {
            assert(books@.map_values(|sb: SymbolBook| (sb.symbol@, sb.book@)) =~= v0.push(
                (ev.symbol, add_spec(b, o).0),
            ));
        }
    }
    fills
}

impl Default for EngineState {
    /// The default engine is empty.
    fn default() -> (r: Self)
        ensures
            r@.seq == 0,
            r@.next_trade_id == 0,
            r@.books == Seq::<(Seq<char>, BookV)>::empty(),
            r@.tapes == Seq::<(Seq<char>, Seq<TradeV>)>::empty(),
            r.wf(),
    {
        EngineState::new()
    }
}

/// Normalizes a request string at the boundary: trims leading and trailing
/// blank space. A symbol must be non-empty after normalization.
pub fn normalize_symbol(s: &str) -> (r: Result<String, EngineError>)
    ensures
        match r {
            Ok(t) => t@ == crate::wal::line_trim(s@) && t@.len() > 0,
            Err(err) => crate::wal::line_trim(s@).len() == 0 && err == EngineError::EmptySymbol,
        },
{
    let t = crate::wal::trim_line(s);
    if t.is_empty() {
        Err(EngineError::EmptySymbol)
    } else {
        Ok(t.to_owned())
    }
}

} // verus!
